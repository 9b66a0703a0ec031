//! Items by document and field.

use std::collections::BTreeMap;

use vstd::prelude::*;

use crate::names;
use crate::names::FieldMap;

verus! {

/// Items by document and field.
pub type Grouped<T> = BTreeMap<u64, FieldMap<Vec<T>>>;

/// The items of a field of a document.
pub open spec fn items_at<T>(m: Map<u64, FieldMap<Vec<T>>>, id: u64, field: Seq<char>) -> Seq<T> {
    if m.contains_key(id) {
        items_of(m[id], field)
    } else {
        Seq::empty()
    }
}

/// The items of a field.
pub open spec fn items_of<T>(fields: FieldMap<Vec<T>>, field: Seq<char>) -> Seq<T> {
    match names::value_of(fields@, field) {
        Some(v) => v@,
        None => Seq::empty(),
    }
}

/// Whether the names ascend and every field that is there has an item.
pub open spec fn fields_full<T>(fields: FieldMap<Vec<T>>) -> bool {
    &&& fields.wf()
    &&& forall|f: Seq<char>|
        match #[trigger] names::value_of(fields@, f) {
            Some(v) => v@.len() > 0,
            None => true,
        }
}

/// Whether the fields of every document are full.
pub open spec fn grouped_wf<T>(m: Map<u64, FieldMap<Vec<T>>>) -> bool {
    forall|id: u64| #[trigger] m.contains_key(id) ==> fields_full(m[id])
}

/// Whether `after` has `items` behind the items of a field of a document, and all else
/// as `before`.
pub open spec fn appended<T>(
    before: Map<u64, FieldMap<Vec<T>>>,
    after: Map<u64, FieldMap<Vec<T>>>,
    id: u64,
    field: Seq<char>,
    items: Seq<T>,
) -> bool {
    forall|i: u64, f: Seq<char>| #[trigger]
        items_at(after, i, f) == if i == id && f == field {
            items_at(before, i, f) + items
        } else {
            items_at(before, i, f)
        }
}

/// A map without fields has no items.
pub proof fn lemma_no_items<T>(fields: FieldMap<Vec<T>>, field: Seq<char>)
    requires
        fields@.len() == 0,
    ensures
        items_of(fields, field).len() == 0,
        names::value_of(fields@, field) is None,
{
    assert(!names::has_name(fields@, field));
}

/// Without a name, the other names keep their values.
proof fn lemma_without_other<V>(s: Seq<(Seq<char>, V)>, name: Seq<char>)
    requires
        names::names_ascend(s),
    ensures
        names::names_ascend(names::without_name(s, name)),
        forall|other: Seq<char>| #[trigger]
            names::value_of(names::without_name(s, name), other) == if other == name {
                None
            } else {
                names::value_of(s, other)
            },
{
    names::lemma_without_name(s, name);
}

/// Puts items behind those of a field of a document.
pub fn append_items<T>(map: &mut Grouped<T>, id: u64, field: &str, items: Vec<T>)
    requires
        grouped_wf(old(map)@),
        items@.len() > 0,
    ensures
        grouped_wf(final(map)@),
        appended(old(map)@, final(map)@, id, field@, items@),
        forall|i: u64| #[trigger] final(map)@.contains_key(i) <==> old(map)@.contains_key(i) || i == id,
{
    let ghost before = map@;
    let ghost new_items = items@;
    let mut fields: FieldMap<Vec<T>> = match map.remove(&id) {
        Some(f) => f,
        None => FieldMap::new(),
    };
    let ghost rest = map@;
    let ghost old_fields = fields;
    proof {
        assert(rest =~= before.remove(id));
        if !before.contains_key(id) {
            assert forall|f: Seq<char>| #[trigger] names::value_of(fields@, f) is None by {
                lemma_no_items(fields, f);
            }
        }
        assert(fields_full(fields));
        lemma_without_other(fields@, field@);
    }
    let mut list: Vec<T> = match fields.remove(field) {
        Some(v) => v,
        None => Vec::new(),
    };
    let ghost old_items = list@;
    let ghost others = fields@;
    let mut more: Vec<T> = items;
    list.append(&mut more);
    proof {
        assert(list@ =~= old_items + new_items);
        names::lemma_with_value(fields@, field@, list);
    }
    fields.insert(field.to_string(), list);
    proof {
        assert forall|f: Seq<char>| f != field@ implies #[trigger] names::value_of(fields@, f)
            == names::value_of(old_fields@, f) by {
            assert(names::value_of(others, f) == names::value_of(old_fields@, f));
            assert(names::value_of(names::with_value(others, field@, list), f) == names::value_of(
                others,
                f,
            ));
        }
        assert forall|f: Seq<char>| match #[trigger] names::value_of(fields@, f) {
            Some(v) => v@.len() > 0,
            None => true,
        } by {
            assert(names::value_of(old_fields@, f) is Some || f == field@ || names::value_of(
                fields@,
                f,
            ) is None);
        }
        assert(fields_full(fields));
    }
    map.insert(id, fields);
    proof {
        assert(map@ =~= before.insert(id, fields));
        assert forall|i: u64, f: Seq<char>| #[trigger]
            items_at(map@, i, f) == if i == id && f == field@ {
                items_at(before, i, f) + new_items
            } else {
                items_at(before, i, f)
            } by {
            if i == id {
                if !before.contains_key(id) {
                    lemma_no_items(old_fields, f);
                }
                assert(items_at(map@, i, f) == items_of(fields, f));
                if f == field@ {
                    assert(items_at(before, i, f) =~= old_items);
                }
            }
        }
    }
}

} // verus!
