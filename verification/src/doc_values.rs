//! Column-oriented field values.
//!
//! A file holds one column per field; a column maps documents to values. Reading
//! a file reads only its directory, and a column is decoded when it is asked for.
//!
//! ```text
//! "DVFF" | version (2) | number of fields (4) | for each field, by name:
//!   length of the name (4) | name | number of values (8) | length of the payload (8)
//!   | payload
//! ```
//!
//! A payload spells the values of a column in ascending order of their documents.
//! How it does so is the caller's: encoders and decoders of payloads are handed
//! in.

use ahash::AHashMap;

use vstd::bytes::*;
use vstd::prelude::*;
use vstd::slice::*;
use vstd::string::*;
use vstd::utf8::*;

use crate::codec;
use crate::column;
use crate::data::DataValue;
use crate::error::LaurusError;
use crate::names;
use crate::names::FieldMap;
use crate::sort;

verus! {

/// The extension of the files.
pub const DOC_VALUES_EXTENSION: &'static str = ".dv";

/// The least number of bytes of the record of a field.
pub const MIN_FIELD_RECORD_SIZE: u64 = 20;

/// The column of a field.
pub struct FieldDocValues {
    pub field_name: String,
    values: AHashMap<u64, DataValue>,
}

impl FieldDocValues {
    /// The name of the field.
    pub closed spec fn name(&self) -> Seq<char> {
        self.field_name@
    }

    /// The values by document.
    pub closed spec fn values(&self) -> Map<u64, DataValue> {
        column::column_values(self.values)
    }

    /// A column without values.
    pub fn new(field_name: String) -> (r: FieldDocValues)
        ensures
            r.name() == field_name@,
            r.values() == column::no_values(),
    {
        FieldDocValues { field_name, values: column::column_new() }
    }

    /// Sets the value of a document.
    pub fn set(&mut self, doc_id: u64, value: DataValue)
        ensures
            final(self).name() == old(self).name(),
            final(self).values() == old(self).values().insert(doc_id, value),
    {
        column::column_insert(&mut self.values, doc_id, value);
    }

    /// The value of a document.
    pub fn get(&self, doc_id: u64) -> (r: Option<&DataValue>)
        ensures
            match r {
                Some(v) => self.values().dom().contains(doc_id) && *v == self.values()[doc_id],
                None => !self.values().dom().contains(doc_id),
            },
    {
        column::column_get(&self.values, doc_id)
    }

    /// How many documents have a value.
    pub fn len(&self) -> (r: usize)
        ensures
            r == self.values().dom().len(),
    {
        column::column_len(&self.values)
    }

    /// Whether no document has a value.
    pub fn is_empty(&self) -> (r: bool)
        ensures
            r == (self.values().dom().len() == 0),
    {
        column::column_len(&self.values) == 0
    }

    /// The documents with their values in ascending order.
    fn sorted_values(&self) -> (r: Vec<(u64, DataValue)>)
        ensures
            is_sorted_column(r@, self.values()),
    {
        let keys: Vec<u64> = column::column_keys(&self.values);
        let ids: Vec<u64> = sort::sorted_unique(&keys);
        let mut r: Vec<(u64, DataValue)> = Vec::new();
        let mut i: usize = 0;
        while i < ids.len()
            invariant
                i <= ids@.len(),
                sort::ascending_set_of(ids@, keys@),
                keys@.to_set() == self.values().dom(),
                r@.len() == i,
                forall|k: int|
                    0 <= k < i ==> (#[trigger] r@[k]).0 == ids@[k] && self.values().dom().contains(
                        r@[k].0,
                    ) && r@[k].1@ == self.values()[r@[k].0]@,
            decreases ids@.len() - i,
        {
            let id: u64 = ids[i];
            proof {
                assert(ids@.contains(id));
                assert(keys@.contains(id));
                assert(keys@.to_set().contains(id));
            }
            match column::column_get(&self.values, id) {
                Some(v) => {
                    r.push((id, v.clone()));
                },
                None => {},
            }
            i = i + 1;
        }
        proof {
            assert forall|id: u64| self.values().dom().contains(id) implies exists|k: int|
                0 <= k < r@.len() && (#[trigger] r@[k]).0 == id by {
                assert(keys@.to_set().contains(id));
                assert(ids@.contains(id));
                let k = choose|k: int| 0 <= k < ids@.len() && ids@[k] == id;
                assert(r@[k].0 == id);
            }
        }
        r
    }
}

/// Whether `s` holds the values of a column in ascending order of their
/// documents.
pub open spec fn is_sorted_column(s: Seq<(u64, DataValue)>, values: Map<u64, DataValue>) -> bool {
    &&& forall|i: int, j: int| 0 <= i < j < s.len() ==> (#[trigger] s[i]).0 < (#[trigger] s[j]).0
    &&& forall|i: int|
        0 <= i < s.len() ==> values.dom().contains((#[trigger] s[i]).0) && s[i].1@ == values[s[i].0]@
    &&& forall|id: u64| #[trigger]
        values.dom().contains(id) ==> exists|k: int| 0 <= k < s.len() && (#[trigger] s[k]).0 == id
}

// ---------------------------------------------------------------------------
// The file
// ---------------------------------------------------------------------------

/// A field as it is written: its name, the number of its values and its payload.
#[verifier::ext_equal]
pub struct ColumnView {
    pub name: Seq<char>,
    pub count: u64,
    pub payload: Seq<u8>,
}

/// The bytes of a field.
pub open spec fn put_column() -> spec_fn(ColumnView) -> Seq<u8> {
    |c: ColumnView|
        spec_u32_to_le_bytes(encode_utf8(c.name).len() as u32) + (encode_utf8(c.name) + (
        spec_u64_to_le_bytes(c.count) + (spec_u64_to_le_bytes(c.payload.len() as u64) + c.payload)))
}

/// The bytes of a file.
pub open spec fn put_file(cs: Seq<ColumnView>) -> Seq<u8> {
    seq![0x44u8, 0x56, 0x46, 0x46] + (seq![1u8, 0u8] + (spec_u32_to_le_bytes(cs.len() as u32)
        + codec::put_many(put_column(), cs)))
}

/// Where the payload of a field stands.
#[derive(Debug, Clone, Copy, PartialEq, Eq, Structural)]
pub struct FieldRecord {
    pub offset: u64,
    pub len: u64,
}

/// Takes the name and the place of the payload of a field.
pub open spec fn take_record() -> spec_fn(Seq<u8>, int) -> codec::Taken<(Seq<char>, FieldRecord)> {
    |b: Seq<u8>, p: int|
        match codec::take_u32(b, p, "DocValues field") {
            Err(e) => Err(e),
            Ok((name_len, p1)) => match codec::check_count(
                name_len as u64,
                1,
                b.len() - p1,
                "field name length",
            ) {
                Err(e) => Err(e),
                Ok(_) => match codec::take_raw(b, p1, name_len as int, "DocValues field") {
                    Err(e) => Err(e),
                    Ok((name, p2)) => if !valid_utf8(name) {
                        Err(LaurusError::FieldName { utf8: codec::utf8_fault(name) })
                    } else {
                        match codec::take_u64(b, p2, "DocValues field") {
                            Err(e) => Err(e),
                            Ok((_, p3)) => match codec::take_u64(b, p3, "DocValues field") {
                                Err(e) => Err(e),
                                Ok((len, p4)) => match codec::check_count(
                                    len,
                                    1,
                                    b.len() - p4,
                                    "field data length",
                                ) {
                                    Err(e) => Err(e),
                                    Ok(_) => Ok(
                                        (
                                            (
                                                decode_utf8(name),
                                                FieldRecord { offset: p4 as u64, len },
                                            ),
                                            p4 + len,
                                        ),
                                    ),
                                },
                            },
                        }
                    },
                },
            },
        }
}

/// Records by name: a later one takes the place of an earlier one.
pub open spec fn by_name(rs: Seq<(Seq<char>, FieldRecord)>) -> Seq<(Seq<char>, FieldRecord)>
    decreases rs.len(),
{
    if rs.len() == 0 {
        Seq::empty()
    } else {
        names::with_value(by_name(rs.drop_last()), rs.last().0, rs.last().1)
    }
}

/// Takes the directory of a file.
pub open spec fn take_directory(b: Seq<u8>) -> Result<Seq<(Seq<char>, FieldRecord)>, LaurusError> {
    match codec::take_raw(b, 0, 4, "DocValues header") {
        Err(e) => Err(e),
        Ok((magic, p1)) => if magic != seq![0x44u8, 0x56, 0x46, 0x46] {
            Err(LaurusError::DocValuesMagic)
        } else {
            match codec::take_raw(b, p1, 2, "DocValues header") {
                Err(e) => Err(e),
                Ok((version, p2)) => if version[0] != 1 {
                    Err(LaurusError::DocValuesVersion { major: version[0], minor: version[1] })
                } else {
                    match codec::take_u32(b, p2, "DocValues header") {
                        Err(e) => Err(e),
                        Ok((num_fields, p3)) => match codec::check_count(
                            num_fields as u64,
                            MIN_FIELD_RECORD_SIZE as int,
                            b.len() - p3,
                            "num_fields",
                        ) {
                            Err(e) => Err(e),
                            Ok(_) => match codec::take_many(
                                take_record(),
                                b,
                                p3,
                                num_fields as nat,
                            ) {
                                Err(e) => Err(e),
                                Ok((rs, _)) => Ok(by_name(rs)),
                            },
                        },
                    }
                },
            }
        },
    }
}

// ---------------------------------------------------------------------------
// Writing
// ---------------------------------------------------------------------------

/// Whether `encode` spells the values of a column, in ascending order of their
/// documents, as `payload`.
pub open spec fn encodes<E: Fn(&Vec<(u64, DataValue)>) -> Result<Vec<u8>, LaurusError>>(
    encode: E,
    values: Map<u64, DataValue>,
    payload: Result<Seq<u8>, LaurusError>,
) -> bool {
    exists|v: &Vec<(u64, DataValue)>, res: Result<Vec<u8>, LaurusError>|
        {
            &&& is_sorted_column(v@, values)
            &&& #[trigger] call_ensures(encode, (v,), res)
            &&& match res {
                Ok(p) => payload == Ok::<Seq<u8>, LaurusError>(p@),
                Err(e) => payload == Err::<Seq<u8>, LaurusError>(e),
            }
        }
}

/// The values of each field by document.
pub type Contents = Map<Seq<char>, Map<u64, DataValue>>;

/// A value that is added: its document, its field, and the value.
pub type Added = (u64, Seq<char>, DataValue);

/// The values once another one was added.
pub open spec fn with_added(m: Contents, a: Added) -> Contents {
    m.insert(
        a.1,
        (if m.dom().contains(a.1) {
            m[a.1]
        } else {
            column::no_values()
        }).insert(a.0, a.2),
    )
}

/// The values once these were added, one after another.
pub open spec fn after_adds(adds: Seq<Added>) -> Contents
    decreases adds.len(),
{
    if adds.len() == 0 {
        Map::empty()
    } else {
        with_added(after_adds(adds.drop_last()), adds.last())
    }
}

/// Writer of columns.
pub struct DocValuesWriter {
    segment_name: String,
    fields: FieldMap<FieldDocValues>,
}

impl DocValuesWriter {
    /// The columns by name.
    pub closed spec fn columns(&self) -> Seq<(Seq<char>, FieldDocValues)> {
        self.fields@
    }

    /// The name of the segment.
    pub closed spec fn segment(&self) -> Seq<char> {
        self.segment_name@
    }

    /// Whether the names of the columns ascend.
    pub open spec fn wf(&self) -> bool {
        names::names_ascend(self.columns())
    }

    /// The values of a field by document.
    pub open spec fn column(&self, name: Seq<char>) -> Map<u64, DataValue> {
        match names::value_of(self.columns(), name) {
            Some(c) => c.values(),
            None => column::no_values(),
        }
    }

    /// What was added: the values of each field by document.
    pub open spec fn contents(&self) -> Contents {
        Map::new(
            |name: Seq<char>| names::has_name(self.columns(), name),
            |name: Seq<char>| self.column(name),
        )
    }

    /// A writer without columns.
    pub fn new(segment_name: String) -> (r: DocValuesWriter)
        ensures
            r.wf(),
            r.columns().len() == 0,
            r.contents() == after_adds(Seq::empty()),
            r.segment() == segment_name@,
    {
        let r = DocValuesWriter { segment_name, fields: FieldMap::new() };
        assert(r.contents() =~= after_adds(Seq::empty()));
        r
    }

    /// Sets the value of a document in the column of a field, which comes into
    /// being where there is none.
    pub fn add_value(&mut self, doc_id: u64, field_name: &str, value: DataValue)
        requires
            old(self).wf(),
        ensures
            final(self).wf(),
            final(self).segment() == old(self).segment(),
            final(self).contents() == with_added(
                old(self).contents(),
                (doc_id, field_name@, value),
            ),
            names::has_name(final(self).columns(), field_name@),
            final(self).column(field_name@) == old(self).column(field_name@).insert(doc_id, value),
            forall|other: Seq<char>|
                other != field_name@ ==> #[trigger] names::value_of(final(self).columns(), other)
                    == names::value_of(old(self).columns(), other),
    {
        let ghost before = self.fields@;
        let found: Option<FieldDocValues> = self.fields.remove(field_name);
        let ghost without = self.fields@;
        let mut field: FieldDocValues = match found {
            Some(f) => f,
            None => FieldDocValues::new(field_name.to_owned()),
        };
        field.set(doc_id, value);
        let ghost f = field;
        self.fields.insert(field_name.to_owned(), field);
        proof {
            names::lemma_without_name(before, field_name@);
            names::lemma_with_value(without, field_name@, f);
            let m = with_added(old(self).contents(), (doc_id, field_name@, value));
            assert forall|other: Seq<char>|
                #![trigger self.contents().dom().contains(other)]
                #![trigger m.dom().contains(other)]
                {
                    &&& self.contents().dom().contains(other) == m.dom().contains(other)
                    &&& m.dom().contains(other) ==> self.contents()[other] == m[other]
                } by {
                if other != field_name@ {
                    assert(names::value_of(self.columns(), other) == names::value_of(
                        old(self).columns(),
                        other,
                    ));
                    assert(names::value_of(self.columns(), other) is Some == names::has_name(
                        self.columns(),
                        other,
                    ));
                    assert(names::value_of(old(self).columns(), other) is Some == names::has_name(
                        old(self).columns(),
                        other,
                    ));
                }
            }
            assert(self.contents() =~= m);
        }
    }

    /// The bytes of the columns, each encoded by `encode`.
    pub fn write_to_output<E: Fn(&Vec<(u64, DataValue)>) -> Result<Vec<u8>, LaurusError>>(
        &self,
        encode: &E,
    ) -> (r: Result<Vec<u8>, LaurusError>)
        requires
            self.wf(),
            forall|v: &Vec<(u64, DataValue)>| call_requires(*encode, (v,)),
        ensures
            match r {
                Ok(bytes) => exists|cs: Seq<ColumnView>| #[trigger]
                    are_encoded(*encode, self.columns(), cs) && bytes@ == put_file(cs),
                Err(e) => encoding_fails(*encode, self.columns(), e),
            },
    {
        let mut out: Vec<u8> = Vec::new();
        out.push(0x44);
        out.push(0x56);
        out.push(0x46);
        out.push(0x46);
        out.push(1);
        out.push(0);
        let n: usize = self.fields.len();
        #[verifier::truncate]
        let num_fields: u32 = n as u32;
        codec::write_u32_le(&mut out, num_fields);
        let ghost head = out@;
        let ghost mut cs: Seq<ColumnView> = Seq::empty();
        proof {
            assert(head =~= seq![0x44u8, 0x56, 0x46, 0x46] + (seq![1u8, 0u8]
                + spec_u32_to_le_bytes(num_fields)));
            assert(out@ =~= head + codec::put_many(put_column(), cs));
        }
        let mut i: usize = 0;
        while i < n
            invariant
                n == self.fields@.len(),
                i <= n,
                forall|v: &Vec<(u64, DataValue)>| call_requires(*encode, (v,)),
                cs.len() == i,
                forall|k: int|
                    0 <= k < i ==> is_encoded(*encode, self.fields@[k], #[trigger] cs[k]),
                out@ == head + codec::put_many(put_column(), cs),
            decreases n - i,
        {
            let name: &str = self.fields.name_at(i).as_str();
            let field: &FieldDocValues = self.fields.value_at(i);
            let name_bytes: &[u8] = name.as_bytes();
            let count: u64 = field.len() as u64;
            let values: Vec<(u64, DataValue)> = field.sorted_values();
            let payload: Vec<u8> = match (*encode)(&values) {
                Ok(p) => p,
                Err(e) => {
                    proof {
                        assert(encodes(*encode, self.columns()[i as int].1.values(), Err(e)));
                        let front = self.columns().take(i as int);
                        assert forall|k: int| 0 <= k < i implies is_encoded(
                            *encode,
                            front[k],
                            #[trigger] cs[k],
                        ) by {}
                        assert(are_encoded(*encode, self.columns().take(cs.len() as int), cs));
                    }
                    return Err(e);
                },
            };
            let ghost before = out@;
            #[verifier::truncate]
            let name_len: u32 = name_bytes.len() as u32;
            codec::write_u32_le(&mut out, name_len);
            codec::write_raw(&mut out, name_bytes);
            codec::write_u64_le(&mut out, count);
            codec::write_u64_le(&mut out, payload.len() as u64);
            codec::write_raw(&mut out, payload.as_slice());
            proof {
                let c = ColumnView { name: name@, count, payload: payload@ };
                assert(out@ =~= before + put_column()(c));
                assert(call_ensures(*encode, (&values,), Ok::<Vec<u8>, LaurusError>(payload)));
                assert(encodes(*encode, field.values(), Ok(payload@)));
                codec::lemma_put_many_push(put_column(), cs, c);
                cs = cs.push(c);
                assert(out@ =~= head + codec::put_many(put_column(), cs));
            }
            i = i + 1;
        }
        proof {
            assert(are_encoded(*encode, self.columns(), cs));
            assert(out@ =~= put_file(cs));
        }
        Ok(out)
    }

    /// The name of the file of a segment and its bytes.
    pub fn write_to<E: Fn(&Vec<(u64, DataValue)>) -> Result<Vec<u8>, LaurusError>>(
        &self,
        segment_name: &str,
        encode: &E,
    ) -> (r: Result<(String, Vec<u8>), LaurusError>)
        requires
            self.wf(),
            forall|v: &Vec<(u64, DataValue)>| call_requires(*encode, (v,)),
        ensures
            match r {
                Ok(file) => file.0@ == segment_name@ + DOC_VALUES_EXTENSION@ && exists|
                    cs: Seq<ColumnView>,
                | #[trigger]
                    are_encoded(*encode, self.columns(), cs) && file.1@ == put_file(cs),
                Err(e) => encoding_fails(*encode, self.columns(), e),
            },
    {
        let bytes: Vec<u8> = match self.write_to_output(encode) {
            Ok(b) => b,
            Err(e) => return Err(e),
        };
        Ok((doc_values_file(segment_name), bytes))
    }

    /// The name of the file of this writer's segment and its bytes.
    pub fn write<E: Fn(&Vec<(u64, DataValue)>) -> Result<Vec<u8>, LaurusError>>(&self, encode: &E)
        -> (r: Result<(String, Vec<u8>), LaurusError>)
        requires
            self.wf(),
            forall|v: &Vec<(u64, DataValue)>| call_requires(*encode, (v,)),
        ensures
            match r {
                Ok(file) => file.0@ == self.segment() + DOC_VALUES_EXTENSION@ && exists|
                    cs: Seq<ColumnView>,
                | #[trigger]
                    are_encoded(*encode, self.columns(), cs) && file.1@ == put_file(cs),
                Err(e) => encoding_fails(*encode, self.columns(), e),
            },
    {
        self.write_to(self.segment_name.as_str(), encode)
    }
}

/// The name of the file of a segment.
pub fn doc_values_file(segment_name: &str) -> (r: String)
    ensures
        r@ == segment_name@ + DOC_VALUES_EXTENSION@,
{
    let mut r: String = segment_name.to_owned();
    r.append(DOC_VALUES_EXTENSION);
    r
}

/// Whether `c` is a field with its values encoded.
pub open spec fn is_encoded<E: Fn(&Vec<(u64, DataValue)>) -> Result<Vec<u8>, LaurusError>>(
    encode: E,
    field: (Seq<char>, FieldDocValues),
    c: ColumnView,
) -> bool {
    &&& c.name == field.0
    &&& c.count == field.1.values().dom().len()
    &&& encodes(encode, field.1.values(), Ok(c.payload))
    &&& c.payload.len() <= u64::MAX
    &&& encode_utf8(c.name).len() <= u64::MAX
}

/// Whether `cs` are the fields with their values encoded.
pub open spec fn are_encoded<E: Fn(&Vec<(u64, DataValue)>) -> Result<Vec<u8>, LaurusError>>(
    encode: E,
    fields: Seq<(Seq<char>, FieldDocValues)>,
    cs: Seq<ColumnView>,
) -> bool {
    &&& cs.len() == fields.len()
    &&& forall|i: int| 0 <= i < cs.len() ==> is_encoded(encode, fields[i], #[trigger] cs[i])
}

/// Whether the values of a field cannot be encoded for this reason, while those of the
/// fields before it can.
pub open spec fn encoding_fails<E: Fn(&Vec<(u64, DataValue)>) -> Result<Vec<u8>, LaurusError>>(
    encode: E,
    fields: Seq<(Seq<char>, FieldDocValues)>,
    e: LaurusError,
) -> bool {
    exists|cs: Seq<ColumnView>|
        cs.len() < fields.len() && #[trigger] are_encoded(
            encode,
            fields.take(cs.len() as int),
            cs,
        ) && encodes(encode, fields[cs.len() as int].1.values(), Err(e))
}

// ---------------------------------------------------------------------------
// Reading
// ---------------------------------------------------------------------------

fn read_record(bytes: &[u8], cursor: &mut usize) -> (r: Result<(String, FieldRecord), LaurusError>)
    requires
        *old(cursor) <= bytes@.len(),
    ensures
        match take_record()(bytes@, *old(cursor) as int) {
            Err(e) => r == Err::<(String, FieldRecord), LaurusError>(e),
            Ok((rec, q)) => r is Ok && (r->Ok_0.0@, r->Ok_0.1) == rec && *final(cursor) == q
                && rec.1.offset + rec.1.len <= bytes@.len(),
        },
        *final(cursor) <= bytes@.len(),
{
    let name_len: u32 = match codec::read_u32_le(bytes, cursor, "DocValues field") {
        Ok(v) => v,
        Err(e) => return Err(e),
    };
    let available: u64 = (bytes.len() - *cursor) as u64;
    match codec::checked_capacity(name_len as u64, 1, available, "field name length") {
        Ok(_) => {},
        Err(e) => return Err(e),
    }
    let name_bytes: &[u8] = match codec::read_raw(
        bytes,
        cursor,
        name_len as usize,
        "DocValues field",
    ) {
        Ok(v) => v,
        Err(e) => return Err(e),
    };
    let name: String = match codec::string_from_utf8(slice_to_vec(name_bytes)) {
        Ok(s) => s,
        Err(utf8) => return Err(LaurusError::FieldName { utf8 }),
    };
    match codec::read_u64_le(bytes, cursor, "DocValues field") {
        Ok(_) => {},
        Err(e) => return Err(e),
    }
    let len: u64 = match codec::read_u64_le(bytes, cursor, "DocValues field") {
        Ok(v) => v,
        Err(e) => return Err(e),
    };
    let available: u64 = (bytes.len() - *cursor) as u64;
    match codec::checked_capacity(len, 1, available, "field data length") {
        Ok(_) => {},
        Err(e) => return Err(e),
    }
    let offset: u64 = *cursor as u64;
    *cursor = *cursor + len as usize;
    Ok((name, FieldRecord { offset, len }))
}

/// Whether the payload of a record stands in a file.
pub open spec fn record_fits(r: FieldRecord, file: Seq<u8>) -> bool {
    r.offset + r.len <= file.len()
}

/// Whether the payloads of all records stand in a file.
pub open spec fn records_fit(dir: Seq<(Seq<char>, FieldRecord)>, file: Seq<u8>) -> bool {
    forall|i: int| 0 <= i < dir.len() ==> record_fits((#[trigger] dir[i]).1, file)
}

fn read_directory(bytes: &[u8]) -> (r: Result<FieldMap<FieldRecord>, LaurusError>)
    ensures
        match take_directory(bytes@) {
            Err(e) => r == Err::<FieldMap<FieldRecord>, LaurusError>(e),
            Ok(dir) => r is Ok && r->Ok_0@ == dir && r->Ok_0.wf() && records_fit(dir, bytes@),
        },
{
    let mut cursor: usize = 0;
    let magic: &[u8] = match codec::read_raw(bytes, &mut cursor, 4, "DocValues header") {
        Ok(v) => v,
        Err(e) => return Err(e),
    };
    if magic[0] != 0x44 || magic[1] != 0x56 || magic[2] != 0x46 || magic[3] != 0x46 {
        assert(magic@ != seq![0x44u8, 0x56, 0x46, 0x46]);
        return Err(LaurusError::DocValuesMagic);
    }
    assert(magic@ =~= seq![0x44u8, 0x56, 0x46, 0x46]);
    let version: &[u8] = match codec::read_raw(bytes, &mut cursor, 2, "DocValues header") {
        Ok(v) => v,
        Err(e) => return Err(e),
    };
    if version[0] != 1 {
        return Err(LaurusError::DocValuesVersion { major: version[0], minor: version[1] });
    }
    let num_fields: u32 = match codec::read_u32_le(bytes, &mut cursor, "DocValues header") {
        Ok(v) => v,
        Err(e) => return Err(e),
    };
    let available: u64 = (bytes.len() - cursor) as u64;
    match codec::checked_capacity(
        num_fields as u64,
        MIN_FIELD_RECORD_SIZE,
        available,
        "num_fields",
    ) {
        Ok(_) => {},
        Err(e) => return Err(e),
    }
    let ghost start = cursor as int;
    let ghost f = take_record();
    let ghost mut rs: Seq<(Seq<char>, FieldRecord)> = Seq::empty();
    let mut directory: FieldMap<FieldRecord> = FieldMap::new();
    let mut i: u32 = 0;
    assert(directory@ =~= by_name(rs));
    while i < num_fields
        invariant
            i <= num_fields,
            cursor <= bytes@.len(),
            f == take_record(),
            take_directory(bytes@) == match codec::take_many(f, bytes@, start, num_fields as nat) {
                Err(e) => Err::<Seq<(Seq<char>, FieldRecord)>, LaurusError>(e),
                Ok((all, _)) => Ok(by_name(all)),
            },
            rs.len() == i,
            codec::take_many(f, bytes@, start, i as nat) == Ok::<_, LaurusError>(
                (rs, cursor as int),
            ),
            directory@ == by_name(rs),
            directory.wf(),
            records_fit(directory@, bytes@),
        decreases num_fields - i,
    {
        match read_record(bytes, &mut cursor) {
            Ok(rec) => {
                let (name, record): (String, FieldRecord) = rec;
                let ghost before = directory@;
                let ghost name_view = name@;
                proof {
                    assert(rs.push((name@, record)).drop_last() =~= rs);
                    rs = rs.push((name@, record));
                    names::lemma_with_value(before, name@, record);
                }
                directory.insert(name, record);
                proof {
                    assert forall|k: int| 0 <= k < directory@.len() implies record_fits(
                        (#[trigger] directory@[k]).1,
                        bytes@,
                    ) by {
                        names::lemma_with_value_from(before, name_view, record, k);
                        if before.contains(directory@[k]) {
                            let m = choose|m: int|
                                0 <= m < before.len() && before[m] == directory@[k];
                            assert(record_fits(before[m].1, bytes@));
                        }
                    }
                }
            },
            Err(e) => {
                proof {
                    codec::lemma_many_fails(
                        f,
                        bytes@,
                        start,
                        (i + 1) as nat,
                        num_fields as nat,
                    );
                }
                return Err(e);
            },
        }
        i = i + 1;
    }
    Ok(directory)
}

/// The values of decoded pairs: a later one takes the place of an earlier one.
pub open spec fn collected(v: Seq<(u64, DataValue)>) -> Map<u64, DataValue>
    decreases v.len(),
{
    if v.len() == 0 {
        column::no_values()
    } else {
        collected(v.drop_last()).insert(v.last().0, v.last().1)
    }
}

/// Whether `decode` makes `res` of the bytes `payload`.
pub open spec fn decodes<D: Fn(&[u8]) -> Result<Vec<(u64, DataValue)>, LaurusError>>(
    decode: D,
    payload: Seq<u8>,
    res: Result<Seq<(u64, DataValue)>, LaurusError>,
) -> bool {
    exists|s: &[u8], out: Result<Vec<(u64, DataValue)>, LaurusError>|
        {
            &&& s@ == payload
            &&& #[trigger] call_ensures(decode, (s,), out)
            &&& match out {
                Ok(v) => res == Ok::<Seq<(u64, DataValue)>, LaurusError>(v@),
                Err(e) => res == Err::<Seq<(u64, DataValue)>, LaurusError>(e),
            }
        }
}

/// Reader of columns.
#[derive(Debug)]
pub struct DocValuesReader {
    directory: FieldMap<FieldRecord>,
    bytes: Vec<u8>,
}

impl DocValuesReader {
    /// The fields with the places of their payloads, by name.
    pub closed spec fn fields(&self) -> Seq<(Seq<char>, FieldRecord)> {
        self.directory@
    }

    /// The bytes of the file.
    pub closed spec fn file(&self) -> Seq<u8> {
        self.bytes@
    }

    #[verifier::type_invariant]
    spec fn directory_is_of_file(&self) -> bool {
        self.directory.wf() && records_fit(self.directory@, self.bytes@)
    }

    /// The payload of a field.
    pub open spec fn payload(&self, record: FieldRecord) -> Seq<u8> {
        self.file().subrange(record.offset as int, record.offset + record.len)
    }

    /// Reads the directory of a file. A segment without a file has no columns.
    pub fn load(file: Option<Vec<u8>>) -> (r: Result<DocValuesReader, LaurusError>)
        ensures
            match file {
                None => r is Ok && r->Ok_0.fields().len() == 0,
                Some(bytes) => match take_directory(bytes@) {
                    Err(e) => r == Err::<DocValuesReader, LaurusError>(e),
                    Ok(dir) => r is Ok && r->Ok_0.fields() == dir && r->Ok_0.file() == bytes@,
                },
            },
    {
        match file {
            None => Ok(DocValuesReader { directory: FieldMap::new(), bytes: Vec::new() }),
            Some(bytes) => match read_directory(bytes.as_slice()) {
                Ok(directory) => Ok(DocValuesReader { directory, bytes }),
                Err(e) => Err(e),
            },
        }
    }

    /// The column of a field, where there is one, decoded by `decode`.
    pub fn materialize<D: Fn(&[u8]) -> Result<Vec<(u64, DataValue)>, LaurusError>>(
        &self,
        field_name: &str,
        decode: &D,
    ) -> (r: Result<Option<FieldDocValues>, LaurusError>)
        requires
            forall|s: &[u8]| call_requires(*decode, (s,)),
        ensures
            match names::value_of(self.fields(), field_name@) {
                None => r == Ok::<Option<FieldDocValues>, LaurusError>(None),
                Some(record) => exists|res: Result<Seq<(u64, DataValue)>, LaurusError>| #[trigger]
                    decodes(*decode, self.payload(record), res) && match res {
                        Err(e) => r == Err::<Option<FieldDocValues>, LaurusError>(e),
                        Ok(v) => r is Ok && r->Ok_0 is Some && r->Ok_0->Some_0.name() == field_name@
                            && r->Ok_0->Some_0.values() == collected(v),
                    },
            },
    {
        proof {
            use_type_invariant(self);
        }
        let record: FieldRecord = match self.directory.get(field_name) {
            Some(record) => *record,
            None => return Ok(None),
        };
        proof {
            let k = choose|k: int|
                0 <= k < self.directory@.len() && (#[trigger] self.directory@[k]).0 == field_name@;
            names::lemma_value_at(self.directory@, field_name@, k);
            assert(record_fits(self.directory@[k].1, self.bytes@));
        }
        let size: usize = self.bytes.len();
        let data: &[u8] = slice_subrange(
            self.bytes.as_slice(),
            record.offset as usize,
            record.offset as usize + record.len as usize,
        );
        assert(data@ == self.payload(record));
        let decoded: Vec<(u64, DataValue)> = match (*decode)(data) {
            Ok(v) => v,
            Err(e) => {
                proof {
                    assert(decodes(*decode, self.payload(record), Err(e)));
                }
                return Err(e);
            },
        };
        let ghost pairs = decoded@;
        proof {
            assert(decodes(*decode, self.payload(record), Ok(pairs)));
        }
        let mut field: FieldDocValues = FieldDocValues::new(field_name.to_owned());
        let mut left: Vec<(u64, DataValue)> = sort::reversed(decoded);
        let ghost mut done: int = 0;
        assert(pairs.take(0) =~= Seq::empty());
        assert(pairs.skip(0) =~= pairs);
        while left.len() > 0
            invariant
                0 <= done <= pairs.len(),
                left@ == pairs.skip(done).reverse(),
                field.name() == field_name@,
                field.values() == collected(pairs.take(done)),
            decreases left@.len(),
        {
            match left.pop() {
                Some((id, value)) => {
                    proof {
                        assert(pairs[done] == (id, value));
                        assert(left@ =~= pairs.skip(done + 1).reverse());
                        assert(pairs.take(done + 1).drop_last() =~= pairs.take(done));
                        done = done + 1;
                    }
                    field.set(id, value);
                },
                None => {},
            }
        }
        assert(pairs.take(done) =~= pairs);
        Ok(Some(field))
    }

    /// The value of a document in the column of a field.
    pub fn get_value<D: Fn(&[u8]) -> Result<Vec<(u64, DataValue)>, LaurusError>>(
        &self,
        field_name: &str,
        doc_id: u64,
        decode: &D,
    ) -> (r: Result<Option<DataValue>, LaurusError>)
        requires
            forall|s: &[u8]| call_requires(*decode, (s,)),
        ensures
            match names::value_of(self.fields(), field_name@) {
                None => r == Ok::<Option<DataValue>, LaurusError>(None),
                Some(record) => exists|res: Result<Seq<(u64, DataValue)>, LaurusError>| #[trigger]
                    decodes(*decode, self.payload(record), res) && match res {
                        Err(e) => r == Err::<Option<DataValue>, LaurusError>(e),
                        Ok(v) => r is Ok && (r->Ok_0 is Some <==> collected(v).dom().contains(
                            doc_id,
                        )) && (r->Ok_0 is Some ==> r->Ok_0->Some_0@ == collected(v)[doc_id]@),
                    },
            },
    {
        match self.materialize(field_name, decode) {
            Ok(Some(field)) => match field.get(doc_id) {
                Some(v) => Ok(Some(v.clone())),
                None => Ok(None),
            },
            Ok(None) => Ok(None),
            Err(e) => Err(e),
        }
    }

    /// Whether a field has a column.
    pub fn has_field(&self, field_name: &str) -> (r: bool)
        ensures
            r == names::has_name(self.fields(), field_name@),
    {
        proof {
            use_type_invariant(self);
        }
        self.directory.contains_key(field_name)
    }

    /// The names of the fields that have a column, in ascending order.
    pub fn field_names(&self) -> (r: Vec<String>)
        ensures
            r@.len() == self.fields().len(),
            forall|i: int| 0 <= i < r@.len() ==> (#[trigger] r@[i])@ == self.fields()[i].0,
    {
        let mut r: Vec<String> = Vec::new();
        let mut i: usize = 0;
        while i < self.directory.len()
            invariant
                i <= self.directory@.len(),
                r@.len() == i,
                forall|k: int| 0 <= k < i ==> (#[trigger] r@[k])@ == self.directory@[k].0,
            decreases self.directory@.len() - i,
        {
            r.push(self.directory.name_at(i).clone());
            i = i + 1;
        }
        r
    }
}

// ---------------------------------------------------------------------------
// Reading gives back what was written
// ---------------------------------------------------------------------------

/// Whether a field can be written: its lengths fit in the bits set aside.
pub open spec fn column_fits(c: ColumnView) -> bool {
    encode_utf8(c.name).len() <= u32::MAX && c.payload.len() <= u64::MAX
}

/// Whether a record is that of a field.
pub open spec fn record_of(b: Seq<u8>, r: (Seq<char>, FieldRecord), c: ColumnView) -> bool {
    &&& r.0 == c.name
    &&& r.1.offset + r.1.len <= b.len()
    &&& b.subrange(r.1.offset as int, r.1.offset + r.1.len) == c.payload
}

proof fn lemma_record_round_trip(b: Seq<u8>, p: int, c: ColumnView)
    requires
        codec::stands_at(b, p, put_column()(c)),
        column_fits(c),
        b.len() <= u64::MAX,
    ensures
        take_record()(b, p) is Ok,
        take_record()(b, p)->Ok_0.1 == p + put_column()(c).len(),
        record_of(b, take_record()(b, p)->Ok_0.0, c),
        put_column()(c).len() >= 20,
{
    lemma_auto_spec_u32_to_from_le_bytes();
    lemma_auto_spec_u64_to_from_le_bytes();
    let name = encode_utf8(c.name);
    let name_len = spec_u32_to_le_bytes(name.len() as u32);
    let count = spec_u64_to_le_bytes(c.count);
    let len = spec_u64_to_le_bytes(c.payload.len() as u64);
    codec::lemma_stands_split(b, p, name_len, name + (count + (len + c.payload)));
    codec::lemma_stands_split(b, p + 4, name, count + (len + c.payload));
    let p2 = p + 4 + name.len();
    codec::lemma_stands_split(b, p2, count, len + c.payload);
    codec::lemma_stands_split(b, p2 + 8, len, c.payload);
    codec::lemma_u32_round_trip(b, p, name.len() as u32, "DocValues field");
    codec::lemma_u64_round_trip(b, p2, c.count, "DocValues field");
    codec::lemma_u64_round_trip(b, p2 + 8, c.payload.len() as u64, "DocValues field");
    encode_utf8_valid_utf8(c.name);
    encode_utf8_decode_utf8(c.name);
}

/// Whether records are those of fields.
pub open spec fn records_of(
    b: Seq<u8>,
    rs: Seq<(Seq<char>, FieldRecord)>,
    cs: Seq<ColumnView>,
) -> bool {
    &&& rs.len() == cs.len()
    &&& forall|i: int| 0 <= i < cs.len() ==> record_of(b, #[trigger] rs[i], cs[i])
}

proof fn lemma_records_round_trip(b: Seq<u8>, p: int, cs: Seq<ColumnView>)
    requires
        codec::stands_at(b, p, codec::put_many(put_column(), cs)),
        forall|i: int| 0 <= i < cs.len() ==> column_fits(#[trigger] cs[i]),
        b.len() <= u64::MAX,
    ensures
        codec::take_many(take_record(), b, p, cs.len()) is Ok,
        codec::take_many(take_record(), b, p, cs.len())->Ok_0.1 == p + codec::put_many(
            put_column(),
            cs,
        ).len(),
        records_of(b, codec::take_many(take_record(), b, p, cs.len())->Ok_0.0, cs),
        codec::put_many(put_column(), cs).len() >= 20 * cs.len(),
    decreases cs.len(),
{
    if cs.len() > 0 {
        let front = cs.drop_last();
        let bytes = codec::put_many(put_column(), front);
        codec::lemma_stands_split(b, p, bytes, put_column()(cs.last()));
        assert forall|i: int| 0 <= i < front.len() implies column_fits(#[trigger] front[i]) by {
            assert(front[i] == cs[i]);
        }
        lemma_records_round_trip(b, p, front);
        assert(column_fits(cs[cs.len() - 1]));
        lemma_record_round_trip(b, p + bytes.len(), cs.last());
        let before = codec::take_many(take_record(), b, p, front.len())->Ok_0.0;
        let rs = codec::take_many(take_record(), b, p, cs.len())->Ok_0.0;
        assert forall|i: int| 0 <= i < cs.len() implies record_of(b, #[trigger] rs[i], cs[i]) by {
            if i < front.len() {
                assert(rs[i] == before[i]);
                assert(record_of(b, before[i], front[i]));
            }
        }
    }
}

/// Records whose names ascend are their own directory.
proof fn lemma_by_name_ascending(rs: Seq<(Seq<char>, FieldRecord)>)
    requires
        names::names_ascend(rs),
    ensures
        by_name(rs) == rs,
    decreases rs.len(),
{
    if rs.len() > 0 {
        let front = rs.drop_last();
        assert forall|i: int, j: int| 0 <= i < j < front.len() implies names::name_before(
            #[trigger] front[i].0,
            #[trigger] front[j].0,
        ) by {
            assert(front[i] == rs[i] && front[j] == rs[j]);
        }
        lemma_by_name_ascending(front);
        let name = rs.last().0;
        assert forall|i: int| 0 <= i < front.len() implies names::name_before(
            #[trigger] front[i].0,
            name,
        ) by {
            assert(front[i] == rs[i]);
        }
        names::lemma_place_unique(front, name, front.len() as int);
        assert(names::with_value(front, name, rs.last().1) =~= rs);
    } else {
        assert(by_name(rs) =~= rs);
    }
}

/// Whether the names of fields ascend.
pub open spec fn column_names_ascend(cs: Seq<ColumnView>) -> bool {
    forall|i: int, j: int|
        0 <= i < j < cs.len() ==> names::name_before((#[trigger] cs[i]).name, (#[trigger] cs[j]).name)
}

/// A file reads back: its directory names every field in order, with the place
/// where its payload stands.
pub proof fn lemma_directory_round_trip(cs: Seq<ColumnView>)
    requires
        column_names_ascend(cs),
        forall|i: int| 0 <= i < cs.len() ==> column_fits(#[trigger] cs[i]),
        cs.len() <= u32::MAX,
        put_file(cs).len() <= u64::MAX,
    ensures
        take_directory(put_file(cs)) is Ok,
        records_of(put_file(cs), take_directory(put_file(cs))->Ok_0, cs),
        names::names_ascend(take_directory(put_file(cs))->Ok_0),
{
    lemma_auto_spec_u32_to_from_le_bytes();
    let b = put_file(cs);
    let magic = seq![0x44u8, 0x56, 0x46, 0x46];
    let version = seq![1u8, 0u8];
    let count = spec_u32_to_le_bytes(cs.len() as u32);
    let body = codec::put_many(put_column(), cs);
    assert(b.subrange(0, b.len() as int) =~= b);
    codec::lemma_stands_split(b, 0, magic, version + (count + body));
    codec::lemma_stands_split(b, 4, version, count + body);
    codec::lemma_stands_split(b, 6, count, body);
    codec::lemma_u32_round_trip(b, 6, cs.len() as u32, "DocValues header");
    lemma_records_round_trip(b, 10, cs);
    let rs = codec::take_many(take_record(), b, 10, cs.len())->Ok_0.0;
    assert forall|i: int, j: int| 0 <= i < j < rs.len() implies names::name_before(
        #[trigger] rs[i].0,
        #[trigger] rs[j].0,
    ) by {
        assert(record_of(b, rs[i], cs[i]) && record_of(b, rs[j], cs[j]));
        assert(names::name_before(cs[i].name, cs[j].name));
    }
    lemma_by_name_ascending(rs);
}

/// Whether two runs of pairs name the same documents with values that hold the
/// same.
pub open spec fn same_pairs(a: Seq<(u64, DataValue)>, b: Seq<(u64, DataValue)>) -> bool {
    &&& a.len() == b.len()
    &&& forall|i: int|
        0 <= i < a.len() ==> (#[trigger] a[i]).0 == b[i].0 && a[i].1@ == b[i].1@
}

/// Whether `decode` gives back what `encode` spells.
pub open spec fn undoes<
    E: Fn(&Vec<(u64, DataValue)>) -> Result<Vec<u8>, LaurusError>,
    D: Fn(&[u8]) -> Result<Vec<(u64, DataValue)>, LaurusError>,
>(encode: E, decode: D) -> bool {
    forall|
        v: &Vec<(u64, DataValue)>,
        p: Vec<u8>,
        s: &[u8],
        out: Result<Vec<(u64, DataValue)>, LaurusError>,
    |
        #[trigger] call_ensures(encode, (v,), Ok::<Vec<u8>, LaurusError>(p)) && s@ == p@
            && #[trigger] call_ensures(decode, (s,), out) ==> out is Ok && same_pairs(
            out->Ok_0@,
            v@,
        )
}

/// Pairs in the order of a column collect to the column.
proof fn lemma_collected(v: Seq<(u64, DataValue)>, id: u64)
    requires
        forall|i: int, j: int| 0 <= i < j < v.len() ==> (#[trigger] v[i]).0 < (#[trigger] v[j]).0,
    ensures
        collected(v).dom().contains(id) <==> exists|k: int|
            0 <= k < v.len() && (#[trigger] v[k]).0 == id,
        forall|k: int| 0 <= k < v.len() && (#[trigger] v[k]).0 == id ==> collected(v)[id] == v[k].1,
    decreases v.len(),
{
    if v.len() > 0 {
        let front = v.drop_last();
        assert forall|i: int, j: int| 0 <= i < j < front.len() implies (#[trigger] front[i]).0 < (
        #[trigger] front[j]).0 by {
            assert(front[i] == v[i] && front[j] == v[j]);
        }
        lemma_collected(front, id);
        if v.last().0 == id {
            assert(v[v.len() - 1].0 == id);
        } else {
            if collected(front).dom().contains(id) {
                let k = choose|k: int| 0 <= k < front.len() && (#[trigger] front[k]).0 == id;
                assert(v[k].0 == id);
            }
            assert forall|k: int| 0 <= k < v.len() && (#[trigger] v[k]).0 == id implies k
                < front.len() && front[k].0 == id by {}
        }
    }
}

/// What was written is read: where `decode` undoes `encode`, every field of the
/// written file has a column, and every document has in it the value that was
/// set, and none where none was set.
pub proof fn lemma_column_reads_back<
    E: Fn(&Vec<(u64, DataValue)>) -> Result<Vec<u8>, LaurusError>,
    D: Fn(&[u8]) -> Result<Vec<(u64, DataValue)>, LaurusError>,
>(
    encode: E,
    decode: D,
    fields: Seq<(Seq<char>, FieldDocValues)>,
    cs: Seq<ColumnView>,
    i: int,
    res: Result<Seq<(u64, DataValue)>, LaurusError>,
)
    requires
        names::names_ascend(fields),
        are_encoded(encode, fields, cs),
        forall|k: int| 0 <= k < cs.len() ==> column_fits(#[trigger] cs[k]),
        cs.len() <= u32::MAX,
        put_file(cs).len() <= u64::MAX,
        undoes(encode, decode),
        0 <= i < fields.len(),
        decodes(decode, cs[i].payload, res),
    ensures
        take_directory(put_file(cs)) is Ok,
        names::value_of(take_directory(put_file(cs))->Ok_0, fields[i].0) is Some,
        ({
            let r = names::value_of(take_directory(put_file(cs))->Ok_0, fields[i].0)->Some_0;
            put_file(cs).subrange(r.offset as int, r.offset + r.len) == cs[i].payload
        }),
        res is Ok,
        forall|id: u64| #[trigger]
            collected(res->Ok_0).dom().contains(id) <==> fields[i].1.values().dom().contains(id),
        forall|id: u64| #[trigger]
            fields[i].1.values().dom().contains(id) ==> collected(res->Ok_0)[id]@
                == fields[i].1.values()[id]@,
{
    let values = fields[i].1.values();
    assert forall|a: int, b: int| 0 <= a < b < cs.len() implies names::name_before(
        (#[trigger] cs[a]).name,
        (#[trigger] cs[b]).name,
    ) by {
        assert(is_encoded(encode, fields[a], cs[a]) && is_encoded(encode, fields[b], cs[b]));
        assert(names::name_before(fields[a].0, fields[b].0));
    }
    lemma_directory_round_trip(cs);
    let dir = take_directory(put_file(cs))->Ok_0;
    assert(record_of(put_file(cs), dir[i], cs[i]));
    assert(is_encoded(encode, fields[i], cs[i]));
    names::lemma_value_at(dir, fields[i].0, i);
    let (v, enc) = choose|v: &Vec<(u64, DataValue)>, enc: Result<Vec<u8>, LaurusError>|
        {
            &&& is_sorted_column(v@, values)
            &&& #[trigger] call_ensures(encode, (v,), enc)
            &&& match enc {
                Ok(p) => Ok::<Seq<u8>, LaurusError>(cs[i].payload) == Ok::<Seq<u8>, LaurusError>(
                    p@,
                ),
                Err(e) => Ok::<Seq<u8>, LaurusError>(cs[i].payload) == Err::<Seq<u8>, LaurusError>(
                    e,
                ),
            }
        };
    let (s, out) = choose|s: &[u8], out: Result<Vec<(u64, DataValue)>, LaurusError>|
        {
            &&& s@ == cs[i].payload
            &&& #[trigger] call_ensures(decode, (s,), out)
            &&& match out {
                Ok(w) => res == Ok::<Seq<(u64, DataValue)>, LaurusError>(w@),
                Err(e) => res == Err::<Seq<(u64, DataValue)>, LaurusError>(e),
            }
        };
    let p = enc->Ok_0;
    assert(call_ensures(encode, (v,), Ok::<Vec<u8>, LaurusError>(p)));
    assert(out is Ok && same_pairs(out->Ok_0@, v@));
    let w = out->Ok_0@;
    assert forall|a: int, b: int| 0 <= a < b < w.len() implies (#[trigger] w[a]).0 < (
    #[trigger] w[b]).0 by {
        assert(w[a].0 == v@[a].0 && w[b].0 == v@[b].0);
    }
    assert forall|id: u64| #[trigger] collected(w).dom().contains(id)
        <==> values.dom().contains(id) by {
        lemma_collected(w, id);
        if collected(w).dom().contains(id) {
            let k = choose|k: int| 0 <= k < w.len() && (#[trigger] w[k]).0 == id;
            assert(w[k].0 == v@[k].0);
            assert(values.dom().contains(v@[k].0));
        }
        if values.dom().contains(id) {
            let k = choose|k: int| 0 <= k < v@.len() && (#[trigger] v@[k]).0 == id;
            assert(w[k].0 == v@[k].0);
        }
    }
    assert forall|id: u64| #[trigger] values.dom().contains(id) implies collected(w)[id]@
        == values[id]@ by {
        lemma_collected(w, id);
        let k = choose|k: int| 0 <= k < v@.len() && (#[trigger] v@[k]).0 == id;
        assert(w[k].0 == v@[k].0 && w[k].1@ == v@[k].1@);
        assert(values.dom().contains(v@[k].0) && v@[k].1@ == values[v@[k].0]@);
    }
}

// ---------------------------------------------------------------------------
// The order of the values
// ---------------------------------------------------------------------------

/// After values were added, each field holds the last one of each document.
proof fn lemma_last_values(adds: Seq<Added>)
    ensures
        forall|name: Seq<char>| #[trigger]
            after_adds(adds).dom().contains(name) <==> exists|id: u64| #[trigger]
                last_added(adds, name, id) is Some,
        forall|name: Seq<char>, id: u64|
            after_adds(adds).dom().contains(name) ==> (#[trigger] after_adds(
                adds,
            )[name].dom().contains(id) <==> last_added(adds, name, id) is Some),
        forall|name: Seq<char>, id: u64| #[trigger]
            last_added(adds, name, id) is Some ==> after_adds(adds)[name][id] == last_added(
                adds,
                name,
                id,
            )->Some_0,
    decreases adds.len(),
{
    if adds.len() > 0 {
        let front = adds.drop_last();
        let a = adds.last();
        lemma_last_values(front);
        assert(after_adds(adds) == with_added(after_adds(front), a));
        assert forall|name: Seq<char>, id: u64| #[trigger] last_added(adds, name, id) == (if a.1
            == name && a.0 == id {
            Some(a.2)
        } else {
            last_added(front, name, id)
        }) by {}
        assert forall|name: Seq<char>| #[trigger]
            after_adds(adds).dom().contains(name) <==> exists|id: u64| #[trigger]
                last_added(adds, name, id) is Some by {
            assert(last_added(adds, a.1, a.0) is Some);
            if after_adds(front).dom().contains(name) {
                let id = choose|id: u64| #[trigger] last_added(front, name, id) is Some;
                assert(last_added(adds, name, id) is Some);
            }
            if exists|id: u64| #[trigger] last_added(adds, name, id) is Some {
                let id = choose|id: u64| #[trigger] last_added(adds, name, id) is Some;
                assert(name == a.1 || last_added(front, name, id) is Some);
            }
        }
        assert forall|name: Seq<char>, id: u64|
            after_adds(adds).dom().contains(name) implies (#[trigger] after_adds(
            adds,
        )[name].dom().contains(id) <==> last_added(adds, name, id) is Some) by {
            if name == a.1 && !after_adds(front).dom().contains(name) {
                assert(last_added(front, name, id) is None);
            } else {
                assert(after_adds(front).dom().contains(name));
                assert(after_adds(front)[name].dom().contains(id) <==> last_added(
                    front,
                    name,
                    id,
                ) is Some);
            }
        }
        assert forall|name: Seq<char>, id: u64| #[trigger]
            last_added(adds, name, id) is Some implies after_adds(adds)[name][id] == last_added(
            adds,
            name,
            id,
        )->Some_0 by {
            if !(a.1 == name && a.0 == id) {
                assert(last_added(front, name, id) is Some);
                assert(after_adds(front).dom().contains(name));
            }
        }
    }
}

/// Each column with its values.
spec fn valued(s: Seq<(Seq<char>, FieldDocValues)>) -> Seq<(Seq<char>, Map<u64, DataValue>)> {
    s.map_values(|c: (Seq<char>, FieldDocValues)| (c.0, c.1.values()))
}

proof fn lemma_valued(w: DocValuesWriter, name: Seq<char>)
    requires
        w.wf(),
    ensures
        names::names_ascend(valued(w.columns())),
        names::value_of(valued(w.columns()), name) == if w.contents().dom().contains(name) {
            Some(w.contents()[name])
        } else {
            None
        },
{
    let s = w.columns();
    let t = valued(s);
    assert(names::names_ascend(t));
    if names::has_name(s, name) {
        let i = choose|i: int| 0 <= i < s.len() && #[trigger] s[i].0 == name;
        assert(t[i].0 == name);
        names::lemma_value_at(s, name, i);
        names::lemma_value_at(t, name, i);
    } else if names::has_name(t, name) {
        let i = choose|i: int| 0 <= i < t.len() && #[trigger] t[i].0 == name;
        assert(s[i].0 == name);
    }
}

/// Whether the columns of a writer may be written as these bytes.
pub open spec fn may_write<E: Fn(&Vec<(u64, DataValue)>) -> Result<Vec<u8>, LaurusError>>(
    encode: E,
    w: DocValuesWriter,
    bytes: Seq<u8>,
) -> bool {
    exists|cs: Seq<ColumnView>| #[trigger]
        are_encoded(encode, w.columns(), cs) && bytes == put_file(cs)
}

proof fn lemma_may_write<E: Fn(&Vec<(u64, DataValue)>) -> Result<Vec<u8>, LaurusError>>(
    encode: E,
    a: DocValuesWriter,
    b: DocValuesWriter,
    bytes: Seq<u8>,
)
    requires
        valued(a.columns()) == valued(b.columns()),
        may_write(encode, a, bytes),
    ensures
        may_write(encode, b, bytes),
{
    let cs = choose|cs: Seq<ColumnView>| #[trigger]
        are_encoded(encode, a.columns(), cs) && bytes == put_file(cs);
    assert(valued(a.columns()).len() == a.columns().len());
    assert(valued(b.columns()).len() == b.columns().len());
    assert forall|i: int| 0 <= i < cs.len() implies is_encoded(
        encode,
        b.columns()[i],
        #[trigger] cs[i],
    ) by {
        assert(is_encoded(encode, a.columns()[i], cs[i]));
        assert(valued(a.columns())[i] == valued(b.columns())[i]);
    }
    assert(are_encoded(encode, b.columns(), cs));
}

/// The bytes of columns depend on what the writer holds alone, not on the order in which
/// it was added: where each field has the same value last for each document, what the one
/// writer may write, the other may.
pub proof fn lemma_same_contents_same_bytes<
    E: Fn(&Vec<(u64, DataValue)>) -> Result<Vec<u8>, LaurusError>,
>(encode: E, a: DocValuesWriter, b: DocValuesWriter, bytes: Seq<u8>)
    requires
        a.wf(),
        b.wf(),
        a.contents() == b.contents(),
    ensures
        may_write(encode, a, bytes) <==> may_write(encode, b, bytes),
{
    assert forall|name: Seq<char>| #[trigger] names::value_of(valued(a.columns()), name)
        == names::value_of(valued(b.columns()), name) by {
        lemma_valued(a, name);
        lemma_valued(b, name);
    }
    lemma_valued(a, Seq::empty());
    lemma_valued(b, Seq::empty());
    names::lemma_same_values_same_seq(valued(a.columns()), valued(b.columns()));
    if may_write(encode, a, bytes) {
        lemma_may_write(encode, a, b, bytes);
    }
    if may_write(encode, b, bytes) {
        lemma_may_write(encode, b, a, bytes);
    }
}

/// Whether `encode` gives one answer to the values of each column.
pub open spec fn one_encoding_each<E: Fn(&Vec<(u64, DataValue)>) -> Result<Vec<u8>, LaurusError>>(
    encode: E,
) -> bool {
    forall|
        values: Map<u64, DataValue>,
        p: Result<Seq<u8>, LaurusError>,
        q: Result<Seq<u8>, LaurusError>,
    | #[trigger]
        encodes(encode, values, p) && #[trigger] encodes(encode, values, q) ==> p == q
}

/// Two writers that hold the same are written as the same bytes, or neither is, as long
/// as columns have one encoding each.
pub proof fn lemma_same_contents_same_file<
    E: Fn(&Vec<(u64, DataValue)>) -> Result<Vec<u8>, LaurusError>,
>(
    encode: E,
    a: DocValuesWriter,
    b: DocValuesWriter,
    ra: Result<Vec<u8>, LaurusError>,
    rb: Result<Vec<u8>, LaurusError>,
)
    requires
        a.wf(),
        b.wf(),
        a.contents() == b.contents(),
        one_encoding_each(encode),
        call_ensures(DocValuesWriter::write_to_output::<E>, (&a, &encode), ra),
        call_ensures(DocValuesWriter::write_to_output::<E>, (&b, &encode), rb),
    ensures
        match ra {
            Ok(bytes) => rb is Ok && rb->Ok_0@ == bytes@,
            Err(_) => rb is Err,
        },
{
    if ra is Ok {
        lemma_same_contents_same_bytes(encode, a, b, ra->Ok_0@);
        lemma_written_once(encode, b, ra->Ok_0@, rb);
    }
    if rb is Ok {
        lemma_same_contents_same_bytes(encode, a, b, rb->Ok_0@);
        lemma_written_once(encode, a, rb->Ok_0@, ra);
    }
}

proof fn lemma_written_once<E: Fn(&Vec<(u64, DataValue)>) -> Result<Vec<u8>, LaurusError>>(
    encode: E,
    w: DocValuesWriter,
    bytes: Seq<u8>,
    r: Result<Vec<u8>, LaurusError>,
)
    requires
        one_encoding_each(encode),
        may_write(encode, w, bytes),
        call_ensures(DocValuesWriter::write_to_output::<E>, (&w, &encode), r),
    ensures
        r is Ok && r->Ok_0@ == bytes,
{
    let cs = choose|cs: Seq<ColumnView>| #[trigger]
        are_encoded(encode, w.columns(), cs) && bytes == put_file(cs);
    match r {
        Ok(out) => {
            let ds = choose|ds: Seq<ColumnView>| #[trigger]
                are_encoded(encode, w.columns(), ds) && out@ == put_file(ds);
            assert forall|i: int| 0 <= i < cs.len() implies cs[i] == ds[i] by {
                assert(is_encoded(encode, w.columns()[i], cs[i]));
                assert(is_encoded(encode, w.columns()[i], ds[i]));
            }
            assert(cs =~= ds);
        },
        Err(e) => {
            let ds = choose|ds: Seq<ColumnView>|
                ds.len() < w.columns().len() && #[trigger] are_encoded(
                    encode,
                    w.columns().take(ds.len() as int),
                    ds,
                ) && encodes(encode, w.columns()[ds.len() as int].1.values(), Err(e));
            assert(is_encoded(encode, w.columns()[ds.len() as int], cs[ds.len() as int]));
        },
    }
}

/// The last value that a document was given in a field.
pub open spec fn last_added(adds: Seq<Added>, name: Seq<char>, id: u64) -> Option<DataValue>
    decreases adds.len(),
{
    if adds.len() == 0 {
        None
    } else if adds.last().1 == name && adds.last().0 == id {
        Some(adds.last().2)
    } else {
        last_added(adds.drop_last(), name, id)
    }
}

/// The bytes of columns do not depend on the order in which their values were added, as
/// long as the last value of each document in each field is the same: what the one writer
/// may write, the other may.
pub proof fn lemma_any_order_of_values<
    E: Fn(&Vec<(u64, DataValue)>) -> Result<Vec<u8>, LaurusError>,
>(
    encode: E,
    a: DocValuesWriter,
    b: DocValuesWriter,
    adds: Seq<Added>,
    other: Seq<Added>,
    bytes: Seq<u8>,
)
    requires
        a.wf(),
        b.wf(),
        a.contents() == after_adds(adds),
        b.contents() == after_adds(other),
        forall|name: Seq<char>, id: u64| #[trigger]
            last_added(adds, name, id) == last_added(other, name, id),
    ensures
        may_write(encode, a, bytes) <==> may_write(encode, b, bytes),
{
    lemma_last_values(adds);
    lemma_last_values(other);
    assert forall|name: Seq<char>|
        #![trigger after_adds(adds).dom().contains(name)]
        #![trigger after_adds(other).dom().contains(name)]
        {
            &&& after_adds(adds).dom().contains(name) == after_adds(other).dom().contains(name)
            &&& after_adds(adds).dom().contains(name) ==> after_adds(adds)[name] == after_adds(
                other,
            )[name]
        } by {
        if after_adds(adds).dom().contains(name) {
            let id = choose|id: u64| #[trigger] last_added(adds, name, id) is Some;
            assert(last_added(other, name, id) is Some);
        }
        if after_adds(other).dom().contains(name) {
            let id = choose|id: u64| #[trigger] last_added(other, name, id) is Some;
            assert(last_added(adds, name, id) is Some);
            assert forall|id: u64|
                #![trigger after_adds(adds)[name].dom().contains(id)]
                #![trigger after_adds(other)[name].dom().contains(id)]
                {
                    &&& after_adds(adds)[name].dom().contains(id) == after_adds(
                        other,
                    )[name].dom().contains(id)
                    &&& after_adds(adds)[name].dom().contains(id) ==> after_adds(adds)[name][id]
                        == after_adds(other)[name][id]
                } by {
                assert(last_added(adds, name, id) == last_added(other, name, id));
            }
            assert(after_adds(adds)[name] =~= after_adds(other)[name]);
        }
    }
    assert(after_adds(adds) =~= after_adds(other));
    lemma_same_contents_same_bytes(encode, a, b, bytes);
}

proof fn lemma_payload_fits(cs: Seq<ColumnView>, i: int)
    requires
        0 <= i < cs.len(),
    ensures
        cs[i].payload.len() <= codec::put_many(put_column(), cs).len(),
    decreases cs.len(),
{
    if i < cs.len() - 1 {
        lemma_payload_fits(cs.drop_last(), i);
        assert(cs.drop_last()[i] == cs[i]);
    }
}

/// A value reads back: where `decode` undoes `encode`, a file that was written of the
/// values that were added has a document's value of a field exactly where one was added,
/// and then the last one.
pub proof fn lemma_value_reads_back<
    E: Fn(&Vec<(u64, DataValue)>) -> Result<Vec<u8>, LaurusError>,
    D: Fn(&[u8]) -> Result<Vec<(u64, DataValue)>, LaurusError>,
>(
    encode: E,
    decode: D,
    w: DocValuesWriter,
    adds: Seq<Added>,
    written: Result<Vec<u8>, LaurusError>,
    opened: Result<DocValuesReader, LaurusError>,
    field: &str,
    id: u64,
    r: Result<Option<DataValue>, LaurusError>,
)
    requires
        undoes(encode, decode),
        w.wf(),
        w.contents() == after_adds(adds),
        w.columns().len() <= u32::MAX,
        forall|i: int|
            0 <= i < w.columns().len() ==> encode_utf8((#[trigger] w.columns()[i]).0).len()
                <= u32::MAX,
        call_ensures(DocValuesWriter::write_to_output::<E>, (&w, &encode), written),
        written is Ok,
        call_ensures(DocValuesReader::load, (Some(written->Ok_0),), opened),
        opened is Ok ==> call_ensures(
            DocValuesReader::get_value::<D>,
            (&opened->Ok_0, field, id, &decode),
            r,
        ),
    ensures
        opened is Ok,
        r is Ok,
        match last_added(adds, field@, id) {
            Some(v) => r->Ok_0 is Some && r->Ok_0->Some_0@ == v@,
            None => r->Ok_0 is None,
        },
{
    let fields = w.columns();
    let bytes = written->Ok_0@;
    let cs = choose|cs: Seq<ColumnView>| #[trigger]
        are_encoded(encode, fields, cs) && bytes == put_file(cs);
    assert(written->Ok_0.len() == bytes.len());
    assert forall|k: int| 0 <= k < cs.len() implies column_fits(#[trigger] cs[k]) by {
        assert(is_encoded(encode, fields[k], cs[k]));
        lemma_payload_fits(cs, k);
    }
    assert forall|a: int, b: int| 0 <= a < b < cs.len() implies names::name_before(
        (#[trigger] cs[a]).name,
        (#[trigger] cs[b]).name,
    ) by {
        assert(is_encoded(encode, fields[a], cs[a]) && is_encoded(encode, fields[b], cs[b]));
        assert(names::name_before(fields[a].0, fields[b].0));
    }
    lemma_directory_round_trip(cs);
    let dir = take_directory(put_file(cs))->Ok_0;
    lemma_last_values(adds);
    let name = field@;
    if names::has_name(fields, name) {
        let i = choose|i: int| 0 <= i < fields.len() && (#[trigger] fields[i]).0 == name;
        assert(is_encoded(encode, fields[i], cs[i]));
        assert(record_of(bytes, dir[i], cs[i]));
        names::lemma_value_at(dir, name, i);
        names::lemma_value_at(fields, name, i);
        let record = dir[i].1;
        let res = choose|res: Result<Seq<(u64, DataValue)>, LaurusError>| #[trigger]
            decodes(decode, opened->Ok_0.payload(record), res) && match res {
                Err(e) => r == Err::<Option<DataValue>, LaurusError>(e),
                Ok(v) => r is Ok && (r->Ok_0 is Some <==> collected(v).dom().contains(id))
                    && (r->Ok_0 is Some ==> r->Ok_0->Some_0@ == collected(v)[id]@),
            };
        lemma_column_reads_back(encode, decode, fields, cs, i, res);
        assert(w.contents().dom().contains(name));
        assert(w.contents()[name] == fields[i].1.values());
        assert(after_adds(adds)[name].dom().contains(id) <==> last_added(adds, name, id) is Some);
    } else {
        assert(!w.contents().dom().contains(name));
        if names::has_name(dir, name) {
            let i = choose|i: int| 0 <= i < dir.len() && (#[trigger] dir[i]).0 == name;
            assert(record_of(bytes, dir[i], cs[i]));
            assert(is_encoded(encode, fields[i], cs[i]));
            assert(fields[i].0 == name);
        }
        assert(!after_adds(adds).dom().contains(name));
        assert(last_added(adds, name, id) is None);
    }
}

} // verus!
