//! Field values and documents.
//!
//! Floating-point numbers are held by their IEEE 754 bit patterns: the library
//! stores, orders and compares them, and never computes with them.

use vstd::prelude::*;

use crate::names;
use crate::names::FieldMap;

verus! {

/// The first and the last second that an instant can have: the start of year
/// -262143 and the end of year 262142.
pub const MIN_SECS: i64 = -8_334_601_228_800;
pub const MAX_SECS: i64 = 8_210_266_876_799;

/// Whether seconds since 1970 and nanoseconds make an instant. A nanosecond
/// part of a second or more stands for a leap second, which only the last
/// second of a minute can have.
pub open spec fn valid_instant(t: (i64, u32)) -> bool {
    &&& MIN_SECS <= t.0 <= MAX_SECS
    &&& t.1 < 2_000_000_000
    &&& t.1 >= 1_000_000_000 ==> t.0 as int % 60 == 59
}

/// The instant in whole microseconds since 1970.
pub open spec fn instant_micros(t: (i64, u32)) -> int {
    t.0 * 1_000_000 + t.1 as int / 1000
}

/// The instant that lies `micros` microseconds after 1970, where there is one.
pub open spec fn micros_instant(micros: i64) -> Option<(i64, u32)> {
    let secs = micros as int / 1_000_000;
    if MIN_SECS <= secs <= MAX_SECS {
        Some((secs as i64, ((micros as int % 1_000_000) * 1000) as u32))
    } else {
        None
    }
}

/// An instant in UTC: seconds since 1970 and nanoseconds.
#[derive(Debug, Clone, Copy, PartialEq, Eq)]
pub struct DateTimeUtc {
    secs: i64,
    nanos: u32,
}

impl View for DateTimeUtc {
    type V = (i64, u32);

    closed spec fn view(&self) -> (i64, u32) {
        (self.secs, self.nanos)
    }
}

impl DateTimeUtc {
    #[verifier::type_invariant]
    spec fn is_valid(self) -> bool {
        valid_instant((self.secs, self.nanos))
    }

    /// The instant of `secs` seconds and `nanos` nanoseconds, where there is one.
    pub fn from_timestamp(secs: i64, nanos: u32) -> (r: Option<DateTimeUtc>)
        ensures
            r is Some <==> valid_instant((secs, nanos)),
            r is Some ==> r->Some_0@ == (secs, nanos),
    {
        if secs < MIN_SECS || secs > MAX_SECS || nanos >= 2_000_000_000 {
            return None;
        }
        if nanos >= 1_000_000_000 {
            let shifted: i64 = secs - MIN_SECS;
            assert(MIN_SECS as int % 60 == 0);
            assert(shifted as int % 60 == secs as int % 60);
            if shifted % 60 != 59 {
                return None;
            }
        }
        Some(DateTimeUtc { secs, nanos })
    }

    /// The instant `micros` microseconds after 1970, where there is one.
    pub fn from_timestamp_micros(micros: i64) -> (r: Option<DateTimeUtc>)
        ensures
            match micros_instant(micros) {
                Some(t) => r is Some && r->Some_0@ == t,
                None => r is None,
            },
    {
        let m: i128 = micros as i128 + 10_000_000_000_000_000_000;
        let s: i128 = m / 1_000_000 - 10_000_000_000_000;
        let rest: u32 = (m % 1_000_000) as u32;
        assert(s == micros as int / 1_000_000);
        assert(rest == micros as int % 1_000_000);
        DateTimeUtc::from_timestamp(s as i64, rest * 1000)
    }

    /// The seconds and the nanoseconds.
    pub fn parts(&self) -> (r: (i64, u32))
        ensures
            r == self@,
            valid_instant(r),
    {
        proof {
            use_type_invariant(self);
        }
        (self.secs, self.nanos)
    }

    /// The whole microseconds since 1970.
    pub fn timestamp_micros(&self) -> (r: i64)
        ensures
            r == instant_micros(self@),
            valid_instant(self@),
    {
        proof {
            use_type_invariant(self);
        }
        self.secs * 1_000_000 + (self.nanos / 1000) as i64
    }
}

/// A point on the earth: the bit patterns of its latitude and longitude.
#[derive(Debug, Clone, Copy, PartialEq, Eq, Structural)]
pub struct GeoPoint {
    pub lat: u64,
    pub lon: u64,
}

/// A point in earth-centred coordinates, by their bit patterns.
#[derive(Debug, Clone, Copy, PartialEq, Eq, Structural)]
pub struct GeoEcefPoint {
    pub x: u64,
    pub y: u64,
    pub z: u64,
}

/// A field value. `Float64` and `Float64Array` hold 64-bit patterns, `Vector`
/// 32-bit patterns.
#[derive(Debug, PartialEq)]
pub enum DataValue {
    Null,
    Bool(bool),
    Int64(i64),
    Float64(u64),
    Text(String),
    Bytes(Vec<u8>, Option<String>),
    Vector(Vec<u32>),
    DateTime(DateTimeUtc),
    Geo(GeoPoint),
    GeoEcef(GeoEcefPoint),
    Int64Array(Vec<i64>),
    Float64Array(Vec<u64>),
    GeoArray(Vec<GeoPoint>),
    GeoEcefArray(Vec<GeoEcefPoint>),
    DateTimeArray(Vec<DateTimeUtc>),
    BoolArray(Vec<bool>),
    TextArray(Vec<String>),
}

/// What a field value holds.
#[verifier::ext_equal]
pub enum DataView {
    Null,
    Bool(bool),
    Int64(i64),
    Float64(u64),
    Text(Seq<char>),
    Bytes(Seq<u8>, Option<Seq<char>>),
    Vector(Seq<u32>),
    DateTime((i64, u32)),
    Geo(GeoPoint),
    GeoEcef(GeoEcefPoint),
    Int64Array(Seq<i64>),
    Float64Array(Seq<u64>),
    GeoArray(Seq<GeoPoint>),
    GeoEcefArray(Seq<GeoEcefPoint>),
    DateTimeArray(Seq<(i64, u32)>),
    BoolArray(Seq<bool>),
    TextArray(Seq<Seq<char>>),
}

/// The characters of each string.
pub open spec fn texts(s: Seq<String>) -> Seq<Seq<char>> {
    s.map_values(|t: String| t@)
}

/// The instant of each element.
pub open spec fn instants(s: Seq<DateTimeUtc>) -> Seq<(i64, u32)> {
    s.map_values(|t: DateTimeUtc| t@)
}

impl View for DataValue {
    type V = DataView;

    open spec fn view(&self) -> DataView {
        match *self {
            DataValue::Null => DataView::Null,
            DataValue::Bool(b) => DataView::Bool(b),
            DataValue::Int64(n) => DataView::Int64(n),
            DataValue::Float64(n) => DataView::Float64(n),
            DataValue::Text(s) => DataView::Text(s@),
            DataValue::Bytes(b, m) => DataView::Bytes(
                b@,
                match m {
                    Some(s) => Some(s@),
                    None => None,
                },
            ),
            DataValue::Vector(v) => DataView::Vector(v@),
            DataValue::DateTime(t) => DataView::DateTime(t@),
            DataValue::Geo(p) => DataView::Geo(p),
            DataValue::GeoEcef(p) => DataView::GeoEcef(p),
            DataValue::Int64Array(v) => DataView::Int64Array(v@),
            DataValue::Float64Array(v) => DataView::Float64Array(v@),
            DataValue::GeoArray(v) => DataView::GeoArray(v@),
            DataValue::GeoEcefArray(v) => DataView::GeoEcefArray(v@),
            DataValue::DateTimeArray(v) => DataView::DateTimeArray(instants(v@)),
            DataValue::BoolArray(v) => DataView::BoolArray(v@),
            DataValue::TextArray(v) => DataView::TextArray(texts(v@)),
        }
    }
}

/// A copy of a vector of plain values.
pub fn copy_vec<T: Copy>(v: &Vec<T>) -> (r: Vec<T>)
    ensures
        r@ == v@,
{
    vstd::slice::slice_to_vec(v.as_slice())
}

/// A copy of a vector of strings.
pub fn copy_strings(v: &Vec<String>) -> (r: Vec<String>)
    ensures
        texts(r@) == texts(v@),
        r@.len() == v@.len(),
{
    let mut r: Vec<String> = Vec::new();
    let n: usize = v.len();
    let mut i: usize = 0;
    while i < n
        invariant
            n == v@.len(),
            i <= n,
            r@.len() == i,
            forall|j: int| 0 <= j < i ==> #[trigger] r@[j]@ == v@[j]@,
        decreases n - i,
    {
        r.push(v[i].clone());
        i = i + 1;
    }
    assert(texts(r@) =~= texts(v@));
    r
}

impl Clone for DataValue {
    fn clone(&self) -> (r: DataValue)
        ensures
            r@ == self@,
    {
        match self {
            DataValue::Null => DataValue::Null,
            DataValue::Bool(b) => DataValue::Bool(*b),
            DataValue::Int64(n) => DataValue::Int64(*n),
            DataValue::Float64(n) => DataValue::Float64(*n),
            DataValue::Text(s) => DataValue::Text(s.clone()),
            DataValue::Bytes(b, m) => {
                let mime: Option<String> = match m {
                    Some(s) => Some(s.clone()),
                    None => None,
                };
                DataValue::Bytes(copy_vec(b), mime)
            },
            DataValue::Vector(v) => DataValue::Vector(copy_vec(v)),
            DataValue::DateTime(t) => DataValue::DateTime(*t),
            DataValue::Geo(p) => DataValue::Geo(*p),
            DataValue::GeoEcef(p) => DataValue::GeoEcef(*p),
            DataValue::Int64Array(v) => DataValue::Int64Array(copy_vec(v)),
            DataValue::Float64Array(v) => DataValue::Float64Array(copy_vec(v)),
            DataValue::GeoArray(v) => DataValue::GeoArray(copy_vec(v)),
            DataValue::GeoEcefArray(v) => DataValue::GeoEcefArray(copy_vec(v)),
            DataValue::DateTimeArray(v) => DataValue::DateTimeArray(copy_vec(v)),
            DataValue::BoolArray(v) => DataValue::BoolArray(copy_vec(v)),
            DataValue::TextArray(v) => DataValue::TextArray(copy_strings(v)),
        }
    }
}

/// The names of fields with what their values hold.
pub type FieldsView = Seq<(Seq<char>, DataView)>;

/// What named values hold.
pub open spec fn fields_view(s: Seq<(Seq<char>, DataValue)>) -> FieldsView {
    s.map_values(|e: (Seq<char>, DataValue)| (e.0, e.1@))
}

/// The names ascend for the values as they do for what the values hold.
pub proof fn lemma_fields_view_ascend(s: Seq<(Seq<char>, DataValue)>)
    ensures
        names::names_ascend(s) <==> names::names_ascend(fields_view(s)),
{
    let t = fields_view(s);
    if names::names_ascend(s) {
        assert forall|i: int, j: int| 0 <= i < j < t.len() implies names::name_before(
            #[trigger] t[i].0,
            #[trigger] t[j].0,
        ) by {
            assert(t[i].0 == s[i].0 && t[j].0 == s[j].0);
        }
    }
    if names::names_ascend(t) {
        assert forall|i: int, j: int| 0 <= i < j < s.len() implies names::name_before(
            #[trigger] s[i].0,
            #[trigger] s[j].0,
        ) by {
            assert(t[i].0 == s[i].0 && t[j].0 == s[j].0);
        }
    }
}

proof fn lemma_fields_view_place(s: Seq<(Seq<char>, DataValue)>, name: Seq<char>)
    ensures
        names::place_of(fields_view(s), name) == names::place_of(s, name),
        names::place_of(s, name) <= s.len(),
        names::place_of(s, name) >= 0,
    decreases s.len(),
{
    if s.len() > 0 {
        assert(fields_view(s).drop_last() =~= fields_view(s.drop_last()));
        lemma_fields_view_place(s.drop_last(), name);
    }
}

/// Setting a value sets what the field holds.
pub proof fn lemma_fields_view_with(
    s: Seq<(Seq<char>, DataValue)>,
    name: Seq<char>,
    value: DataValue,
)
    ensures
        fields_view(names::with_value(s, name, value)) == names::with_value(fields_view(s), name, value@),
{
    lemma_fields_view_place(s, name);
    assert(fields_view(names::with_value(s, name, value)) =~= names::with_value(
        fields_view(s),
        name,
        value@,
    ));
}

/// A stored document.
#[derive(Debug, PartialEq)]
pub struct Document {
    pub fields: FieldMap<DataValue>,
}

impl View for Document {
    type V = FieldsView;

    open spec fn view(&self) -> FieldsView {
        fields_view(self.fields@)
    }
}

impl Document {
    /// The names of the fields ascend.
    pub open spec fn wf(&self) -> bool {
        self.fields.wf()
    }

    /// A document without fields.
    pub fn new() -> (r: Document)
        ensures
            r.wf(),
            r@ == FieldsView::empty(),
    {
        let r = Document { fields: FieldMap::new() };
        assert(r@ =~= FieldsView::empty());
        r
    }

    /// Sets a field.
    pub fn insert(&mut self, name: String, value: DataValue)
        requires
            old(self).wf(),
        ensures
            final(self).wf(),
            final(self)@ == names::with_value(old(self)@, name@, value@),
    {
        proof {
            lemma_fields_view_with(self.fields@, name@, value);
        }
        self.fields.insert(name, value);
    }

    /// The value of a field.
    pub fn get_field(&self, name: &str) -> (r: Option<&DataValue>)
        requires
            self.wf(),
        ensures
            match names::value_of(self.fields@, name@) {
                Some(v) => r is Some && *r->Some_0 == v,
                None => r is None,
            },
    {
        self.fields.get(name)
    }
}

impl Clone for Document {
    fn clone(&self) -> (r: Document)
        ensures
            r@ == self@,
            self.wf() ==> r.wf(),
    {
        Document { fields: copy_fields(&self.fields) }
    }
}

/// A copy of named values.
pub fn copy_fields(m: &FieldMap<DataValue>) -> (r: FieldMap<DataValue>)
    ensures
        fields_view(r@) == fields_view(m@),
        m.wf() ==> r.wf(),
{
    let mut r: FieldMap<DataValue> = FieldMap::new();
    let n: usize = m.len();
    let mut i: usize = 0;
    while i < n
        invariant
            n == m@.len(),
            i <= n,
            fields_view(r@) == fields_view(m@).take(i as int),
            r@.len() == i,
        decreases n - i,
    {
        let v: DataValue = m.value_at(i).clone();
        let ghost before = r@;
        r.push_last(m.name_at(i).clone(), v);
        assert(fields_view(r@) =~= fields_view(m@).take(i + 1));
        i = i + 1;
    }
    proof {
        assert(fields_view(m@).take(n as int) =~= fields_view(m@));
        lemma_fields_view_ascend(m@);
        lemma_fields_view_ascend(r@);
    }
    r
}

/// A copy of named values that can be copied.
pub fn copy_map<V: Copy>(m: &FieldMap<V>) -> (r: FieldMap<V>)
    ensures
        r@ == m@,
{
    let mut r: FieldMap<V> = FieldMap::new();
    let n: usize = m.len();
    let mut i: usize = 0;
    assert(r@ =~= m@.take(0));
    while i < n
        invariant
            n == m@.len(),
            i <= n,
            r@ == m@.take(i as int),
        decreases n - i,
    {
        r.push_last(m.name_at(i).clone(), *m.value_at(i));
        assert(r@ =~= m@.take(i + 1));
        i = i + 1;
    }
    assert(m@.take(n as int) =~= m@);
    r
}

} // verus!
