//! What loading gives back of stored documents.

use std::collections::BTreeMap;

use vstd::prelude::*;

use crate::data::{DataView, Document, FieldsView};
use crate::error::LaurusError;
use crate::names;
use crate::sort;
use crate::stored_fields;
use crate::stored_fields::StoredFieldsReader;

verus! {

/// Whether one instant is another cut to whole microseconds.
pub open spec fn is_cut(t: (i64, u32), cut: (i64, u32)) -> bool {
    t.0 * 1_000_000_000 + t.1 - 1000 < cut.0 * 1_000_000_000 + cut.1 <= t.0 * 1_000_000_000 + t.1
        && cut.1 % 1000 == 0
}

/// Whether a value was kept: as it was, but that instants in a list are cut to whole
/// microseconds and an empty media type is none.
pub open spec fn is_kept(v: DataView, w: DataView) -> bool {
    match v {
        DataView::DateTimeArray(a) => w matches DataView::DateTimeArray(c) && c.len() == a.len()
            && forall|i: int| 0 <= i < a.len() ==> is_cut(a[i], #[trigger] c[i]),
        DataView::Bytes(b, Some(m)) => w == if m.len() == 0 {
            DataView::Bytes(b, None)
        } else {
            v
        },
        _ => w == v,
    }
}

proof fn lemma_cut(t: (i64, u32), micros: i64)
    requires
        crate::data::valid_instant(t),
        micros == crate::data::instant_micros(t),
        crate::data::micros_instant(micros) is Some,
    ensures
        is_cut(t, crate::data::micros_instant(micros)->Some_0),
{
    let cut = crate::data::micros_instant(micros)->Some_0;
    let m = micros as int;
    assert(m == 1_000_000 * (m / 1_000_000) + m % 1_000_000);
    assert(cut.0 == m / 1_000_000);
    assert(cut.1 == (m % 1_000_000) * 1000);
    assert(((m % 1_000_000) * 1000) % 1000 == 0) by (nonlinear_arith);
}

proof fn lemma_form_is_kept(v: DataView)
    requires
        stored_fields::value_held(v),
        stored_fields::storable(v),
    ensures
        is_kept(v, stored_fields::stored_form(v)),
{
    if let DataView::DateTimeArray(a) = v {
        let c = a.map_values(|t: (i64, u32)| stored_fields::cut_instant(t));
        assert forall|i: int| 0 <= i < a.len() implies is_cut(a[i], #[trigger] c[i]) by {
            let micros = crate::data::instant_micros(a[i]) as i64;
            assert(crate::data::micros_instant(micros) is Some);
            assert(crate::data::valid_instant(a[i]));
            lemma_cut(a[i], micros);
        }
    }
}

proof fn lemma_form_of_field(fields: FieldsView, name: Seq<char>)
    requires
        names::names_ascend(fields),
        stored_fields::fields_storable(fields),
        stored_fields::fields_held(fields),
    ensures
        match names::value_of(stored_fields::stored_fields_form(fields), name) {
            Some(w) => names::value_of(fields, name) is Some && is_kept(
                names::value_of(fields, name)->Some_0,
                w,
            ),
            None => names::value_of(fields, name) is None,
        },
{
    let form = stored_fields::stored_fields_form(fields);
    assert forall|i: int, j: int| 0 <= i < j < form.len() implies names::name_before(
        #[trigger] form[i].0,
        #[trigger] form[j].0,
    ) by {
        assert(form[i].0 == fields[i].0 && form[j].0 == fields[j].0);
    }
    if names::has_name(fields, name) {
        let i = choose|i: int| 0 <= i < fields.len() && (#[trigger] fields[i]).0 == name;
        assert(form[i].0 == name);
        names::lemma_value_at(fields, name, i);
        names::lemma_value_at(form, name, i);
        lemma_form_is_kept(fields[i].1);
    } else if names::has_name(form, name) {
        let i = choose|i: int| 0 <= i < form.len() && (#[trigger] form[i]).0 == name;
        assert(fields[i].0 == name);
    }
}

/// A part that was written of documents is loaded again: it has exactly their ids, and of
/// each document exactly its fields, with the values that it had.
pub proof fn lemma_documents_read_back(
    docs: Seq<(u64, FieldsView)>,
    bytes: &[u8],
    loaded: Result<BTreeMap<u64, Document>, LaurusError>,
    id: u64,
    k: int,
    name: Seq<char>,
)
    requires
        docs.len() <= usize::MAX,
        forall|i: int, j: int|
            0 <= i < j < docs.len() ==> (#[trigger] docs[i]).0 != (#[trigger] docs[j]).0,
        stored_fields::is_written(stored_fields::by_id(docs)),
        bytes@ == stored_fields::put_file(stored_fields::by_id(docs)),
        call_ensures(StoredFieldsReader::load, (bytes,), loaded),
        0 <= k < docs.len(),
    ensures
        loaded is Ok,
        loaded->Ok_0@.contains_key(id) <==> has_id(docs, id),
        match names::value_of(loaded->Ok_0@[docs[k].0]@, name) {
            Some(w) => names::value_of(docs[k].1, name) is Some && is_kept(
                names::value_of(docs[k].1, name)->Some_0,
                w,
            ),
            None => names::value_of(docs[k].1, name) is None,
        },
{
    let ids = stored_fields::ids_of(docs);
    let order = sort::order_of(ids);
    let ordered = stored_fields::by_id(docs);
    let form = stored_fields::stored_docs_form(ordered);
    sort::lemma_order_of(ids);
    assert(crate::codec::stands_at(bytes@, 0, stored_fields::put_file(ordered))) by {
        assert(bytes@.subrange(0, bytes@.len() as int) =~= bytes@);
    }
    stored_fields::lemma_file_round_trip(bytes@, ordered);
    assert forall|i: int, j: int| 0 <= i < j < form.len() implies (#[trigger] form[i]).0 != (
    #[trigger] form[j]).0 by {
        let (a, b) = (order[i] as int, order[j] as int);
        assert(order[i] != order[j]);
        assert(form[i].0 == docs[a].0 && form[j].0 == docs[b].0);
        if a < b {
            assert(docs[a].0 != docs[b].0);
        } else {
            assert(docs[b].0 != docs[a].0);
        }
    }
    stored_fields::lemma_documents_by_id(form);
    let all = stored_fields::with_documents(Map::empty(), form);
    assert(stored_fields::documents_view(loaded->Ok_0@) == all);
    assert(stored_fields::documents_view(loaded->Ok_0@).dom() =~= loaded->Ok_0@.dom());
    assert(order.contains(k as usize));
    let p = choose|p: int| 0 <= p < order.len() && order[p] == k as usize;
    assert(form[p].0 == docs[k].0);
    assert(ordered[p] == docs[k]);
    lemma_form_of_field(docs[k].1, name);
    assert(all.contains_key(form[p].0));
    assert(all[docs[k].0] == stored_fields::stored_fields_form(docs[k].1));
    if all.contains_key(id) {
        let i = choose|i: int| 0 <= i < form.len() && (#[trigger] form[i]).0 == id;
        assert(docs[order[i] as int].0 == id);
    }
    if has_id(docs, id) {
        let i = choose|i: int| 0 <= i < docs.len() && (#[trigger] docs[i]).0 == id;
        assert(order.contains(i as usize));
        let q = choose|q: int| 0 <= q < order.len() && order[q] == i as usize;
        assert(form[q].0 == id);
        assert(all.contains_key(form[q].0));
    }
}

/// Whether a document with this id is there.
pub open spec fn has_id(docs: Seq<(u64, FieldsView)>, id: u64) -> bool {
    exists|i: int| 0 <= i < docs.len() && (#[trigger] docs[i]).0 == id
}

} // verus!
