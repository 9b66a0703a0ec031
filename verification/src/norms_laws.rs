//! What the parts with lengths and statistics say of the fields of documents.

use vstd::bytes::*;
use vstd::prelude::*;
use vstd::utf8::*;

use crate::codec;
use crate::error::LaurusError;
use crate::names;
use crate::norms;
use crate::norms::{Lengths, SegmentNorms, StatsView};

verus! {

// ---------------------------------------------------------------------------
// Last values
// ---------------------------------------------------------------------------

/// Whether place `k` is the last that has this name.
pub open spec fn is_last_of<V>(s: Seq<(Seq<char>, V)>, k: int, name: Seq<char>) -> bool {
    &&& 0 <= k < s.len()
    &&& s[k].0 == name
    &&& forall|j: int| k < j < s.len() ==> (#[trigger] s[j]).0 != name
}

/// Of values with names, each name keeps the last value, and no other name is there.
pub proof fn lemma_latest<V>(s: Seq<(Seq<char>, V)>, name: Seq<char>)
    ensures
        names::names_ascend(names::latest(s)),
        match names::value_of(names::latest(s), name) {
            Some(v) => exists|k: int| #[trigger] is_last_of(s, k, name) && s[k].1 == v,
            None => forall|k: int| 0 <= k < s.len() ==> (#[trigger] s[k]).0 != name,
        },
    decreases s.len(),
{
    if s.len() > 0 {
        let front = s.drop_last();
        let last = s.last();
        lemma_latest(front, name);
        names::lemma_with_value(names::latest(front), last.0, last.1);
        if last.0 == name {
            assert(is_last_of(s, s.len() - 1, name));
            assert(names::value_of(names::latest(s), name) == Some(last.1));
        } else {
            assert(names::value_of(names::latest(s), name) == names::value_of(
                names::latest(front),
                name,
            ));
            if let Some(v) = names::value_of(names::latest(front), name) {
                let k = choose|k: int| #[trigger] is_last_of(front, k, name) && front[k].1 == v;
                assert forall|j: int| k < j < s.len() implies (#[trigger] s[j]).0 != name by {
                    if j < front.len() {
                        assert(front[j] == s[j]);
                    }
                }
                assert(is_last_of(s, k, name) && s[k].1 == v);
            } else {
                assert forall|k: int| 0 <= k < s.len() implies (#[trigger] s[k]).0 != name by {
                    if k < front.len() {
                        assert(front[k] == s[k]);
                    }
                }
            }
        }
    } else {
        assert(!names::has_name(names::latest(s), name));
    }
}

// ---------------------------------------------------------------------------
// Lengths
// ---------------------------------------------------------------------------

/// The bytes of the name and the length of a field.
pub open spec fn put_length() -> spec_fn((Seq<char>, u32)) -> Seq<u8> {
    |e: (Seq<char>, u32)| codec::put_str(e.0) + spec_u32_to_le_bytes(e.1)
}

/// The bytes of a document and the lengths of its fields.
pub open spec fn put_lengths() -> spec_fn((u64, Lengths)) -> Seq<u8> {
    |e: (u64, Lengths)|
        spec_u64_to_le_bytes(e.0) + codec::put_varint(e.1.len()) + codec::put_many(
            put_length(),
            e.1,
        )
}

/// The bytes of the lengths of documents.
pub open spec fn put_lens(docs: Seq<(u64, Lengths)>) -> Seq<u8> {
    codec::put_varint(docs.len()) + codec::put_many(put_lengths(), docs)
}

/// Whether names are short enough for their length to be written.
pub open spec fn are_short<V>(s: Seq<(Seq<char>, V)>) -> bool {
    &&& s.len() <= u64::MAX
    &&& forall|i: int|
        0 <= i < s.len() ==> encode_utf8((#[trigger] s[i]).0).len() <= u64::MAX
}

/// Whether names differ.
pub open spec fn differ<V>(s: Seq<(Seq<char>, V)>) -> bool {
    forall|i: int, j: int| 0 <= i < j < s.len() ==> (#[trigger] s[i]).0 != (#[trigger] s[j]).0
}

proof fn lemma_length_gives_back(e: (Seq<char>, u32))
    requires
        encode_utf8(e.0).len() <= u64::MAX,
    ensures
        codec::gives_back(norms::take_length(), put_length(), e),
{
    assert forall|b: Seq<u8>, p: int| #[trigger]
        codec::stands_at(b, p, put_length()(e)) implies norms::take_length()(b, p) == Ok::<
        ((Seq<char>, u32), int),
        LaurusError,
    >((e, p + put_length()(e).len())) by {
        codec::lemma_stands_split(b, p, codec::put_str(e.0), spec_u32_to_le_bytes(e.1));
        codec::lemma_str_round_trip(b, p, e.0, "field name");
        codec::lemma_u32_round_trip(b, p + codec::put_str(e.0).len(), e.1, "field length");
    }
}

proof fn lemma_lengths_take(e: (u64, Lengths), b: Seq<u8>, p: int)
    requires
        are_short(e.1),
        codec::stands_at(b, p, put_lengths()(e)),
    ensures
        norms::take_lengths()(b, p) == Ok::<((u64, Lengths), int), LaurusError>(
            ((e.0, names::latest(e.1)), p + put_lengths()(e).len()),
        ),
{
    let id = spec_u64_to_le_bytes(e.0);
    let count = codec::put_varint(e.1.len());
    let items = codec::put_many(put_length(), e.1);
    codec::lemma_stands_split(b, p, id + count, items);
    codec::lemma_stands_split(b, p, id, count);
    codec::lemma_u64_round_trip(b, p, e.0, "document id");
    codec::lemma_varint_round_trip(b, p + 8, e.1.len() as u64, "field count");
    assert forall|i: int| 0 <= i < e.1.len() implies codec::gives_back(
        norms::take_length(),
        put_length(),
        #[trigger] e.1[i],
    ) by {
        lemma_length_gives_back(e.1[i]);
    }
    codec::lemma_many_round_trip(
        norms::take_length(),
        put_length(),
        e.1,
        b,
        p + 8 + count.len(),
    );
}

/// Whether every document has few enough fields with names short enough.
pub open spec fn all_short(docs: Seq<(u64, Lengths)>) -> bool {
    docs.len() <= u64::MAX && forall|i: int| 0 <= i < docs.len() ==> are_short(
        (#[trigger] docs[i]).1,
    )
}

proof fn lemma_lens_take(docs: Seq<(u64, Lengths)>, n: int, b: Seq<u8>, p: int)
    requires
        all_short(docs),
        0 <= n <= docs.len(),
        codec::stands_at(b, p, codec::put_many(put_lengths(), docs.take(n))),
    ensures
        codec::take_many(norms::take_lengths(), b, p, n as nat) == Ok::<
            (Seq<(u64, Lengths)>, int),
            LaurusError,
        >(
            (
                docs.take(n).map_values(|e: (u64, Lengths)| (e.0, names::latest(e.1))),
                p + codec::put_many(put_lengths(), docs.take(n)).len(),
            ),
        ),
    decreases n,
{
    let kept = |e: (u64, Lengths)| (e.0, names::latest(e.1));
    if n > 0 {
        let front = docs.take(n - 1);
        assert(docs.take(n).drop_last() =~= front);
        assert(docs.take(n).last() == docs[n - 1]);
        codec::lemma_stands_split(
            b,
            p,
            codec::put_many(put_lengths(), front),
            put_lengths()(docs[n - 1]),
        );
        lemma_lens_take(docs, n - 1, b, p);
        lemma_lengths_take(docs[n - 1], b, p + codec::put_many(put_lengths(), front).len());
        assert(docs.take(n).map_values(kept) =~= front.map_values(kept).push(kept(docs[n - 1])));
    } else {
        assert(docs.take(n).map_values(kept) =~= Seq::empty());
        assert(docs.take(n) =~= Seq::empty());
    }
}

/// Whether place `k` is the last that has this document.
pub open spec fn is_last_doc(docs: Seq<(u64, Lengths)>, k: int, id: u64) -> bool {
    &&& 0 <= k < docs.len()
    &&& docs[k].0 == id
    &&& forall|j: int| k < j < docs.len() ==> (#[trigger] docs[j]).0 != id
}

proof fn lemma_lengths_by_id(s: Seq<(u64, Lengths)>, id: u64)
    ensures
        norms::lengths_by_id(s).contains_key(id) ==> exists|k: int| #[trigger]
            is_last_doc(s, k, id) && norms::lengths_by_id(s)[id] == s[k].1,
        !norms::lengths_by_id(s).contains_key(id) ==> forall|k: int|
            0 <= k < s.len() ==> (#[trigger] s[k]).0 != id,
    decreases s.len(),
{
    if s.len() > 0 {
        let front = s.drop_last();
        lemma_lengths_by_id(front, id);
        if s.last().0 == id {
            assert(is_last_doc(s, s.len() - 1, id));
        } else {
            assert forall|j: int| front.len() <= j < s.len() implies (#[trigger] s[j]).0 != id by {}
            if norms::lengths_by_id(front).contains_key(id) {
                let k = choose|k: int| #[trigger]
                    is_last_doc(front, k, id) && norms::lengths_by_id(front)[id] == front[k].1;
                assert forall|j: int| k < j < s.len() implies (#[trigger] s[j]).0 != id by {
                    if j < front.len() {
                        assert(front[j] == s[j]);
                    }
                }
                assert(is_last_doc(s, k, id));
            } else {
                assert forall|k: int| 0 <= k < s.len() implies (#[trigger] s[k]).0 != id by {
                    if k < front.len() {
                        assert(front[k] == s[k]);
                    }
                }
            }
        }
    }
}

/// The bytes of the name and the statistics of a field.
pub open spec fn put_stats() -> spec_fn((Seq<char>, StatsView)) -> Seq<u8> {
    |e: (Seq<char>, StatsView)|
        codec::put_str(e.0) + spec_u64_to_le_bytes(e.1.doc_count) + spec_u64_to_le_bytes(
            e.1.avg_length,
        ) + spec_u64_to_le_bytes(e.1.min_length) + spec_u64_to_le_bytes(e.1.max_length)
}

/// The bytes of the statistics of fields.
pub open spec fn put_fstats(stats: Seq<(Seq<char>, StatsView)>) -> Seq<u8> {
    codec::put_varint(stats.len()) + codec::put_many(put_stats(), stats)
}

/// Whether statistics carry their name, and do not count terms.
pub open spec fn is_plain(e: (Seq<char>, StatsView)) -> bool {
    e.1.field == e.0 && e.1.unique_terms == 0 && e.1.total_terms == 0
}

proof fn lemma_stats_gives_back(e: (Seq<char>, StatsView))
    requires
        encode_utf8(e.0).len() <= u64::MAX,
        is_plain(e),
    ensures
        codec::gives_back(norms::take_stats(), put_stats(), e),
{
    assert forall|b: Seq<u8>, p: int| #[trigger]
        codec::stands_at(b, p, put_stats()(e)) implies norms::take_stats()(b, p) == Ok::<
        ((Seq<char>, StatsView), int),
        LaurusError,
    >((e, p + put_stats()(e).len())) by {
        let name = codec::put_str(e.0);
        let a = spec_u64_to_le_bytes(e.1.doc_count);
        let c = spec_u64_to_le_bytes(e.1.avg_length);
        let d = spec_u64_to_le_bytes(e.1.min_length);
        let f = spec_u64_to_le_bytes(e.1.max_length);
        codec::lemma_stands_split(b, p, name + a + c + d, f);
        codec::lemma_stands_split(b, p, name + a + c, d);
        codec::lemma_stands_split(b, p, name + a, c);
        codec::lemma_stands_split(b, p, name, a);
        codec::lemma_str_round_trip(b, p, e.0, "field name");
        let q = p + name.len();
        codec::lemma_u64_round_trip(b, q, e.1.doc_count, "field statistics");
        codec::lemma_u64_round_trip(b, q + 8, e.1.avg_length, "field statistics");
        codec::lemma_u64_round_trip(b, q + 16, e.1.min_length, "field statistics");
        codec::lemma_u64_round_trip(b, q + 24, e.1.max_length, "field statistics");
    }
}

/// A segment's parts with lengths and statistics, written as their format says, are read
/// back: the length of a field of a document is the one that was written of it, the last
/// where there are several, and the statistics of a field are those that were written.
pub proof fn lemma_norms_read_back(
    docs: Seq<(u64, Lengths)>,
    stats: Seq<(Seq<char>, StatsView)>,
    lens: &[u8],
    fstats: &[u8],
    r: Result<SegmentNorms, LaurusError>,
    k: int,
    i: int,
    j: int,
)
    requires
        all_short(docs),
        are_short(stats),
        differ(stats),
        forall|m: int| 0 <= m < stats.len() ==> is_plain(#[trigger] stats[m]),
        lens@ == put_lens(docs),
        fstats@ == put_fstats(stats),
        call_ensures(SegmentNorms::load, (Some(lens), Some(fstats)), r),
        0 <= k < docs.len(),
        is_last_doc(docs, k, docs[k].0),
        is_last_of(docs[k].1, i, docs[k].1[i].0),
        0 <= j < stats.len(),
    ensures
        r is Ok,
        r->Ok_0.length_of(docs[k].0, docs[k].1[i].0) == Some(docs[k].1[i].1),
        names::value_of(r->Ok_0.all_stats(), stats[j].0) == Some(stats[j].1),
{
    let n = docs.len() as int;
    let count = codec::put_varint(docs.len());
    assert(codec::stands_at(lens@, 0, put_lens(docs))) by {
        assert(lens@.subrange(0, lens@.len() as int) =~= lens@);
    }
    codec::lemma_stands_split(lens@, 0, count, codec::put_many(put_lengths(), docs));
    codec::lemma_varint_round_trip(lens@, 0, docs.len() as u64, "document count");
    assert(docs.take(n) =~= docs);
    lemma_lens_take(docs, n, lens@, count.len() as int);
    let kept = docs.map_values(|e: (u64, Lengths)| (e.0, names::latest(e.1)));
    let all = norms::lengths_by_id(kept);
    let id = docs[k].0;
    assert(norms::take_lens(lens@) == Ok::<Map<u64, Lengths>, LaurusError>(all));
    lemma_lengths_by_id(kept, id);
    assert(kept[k].0 == id);
    let m = choose|m: int| #[trigger] is_last_doc(kept, m, id) && all[id] == kept[m].1;
    if m < k {
        assert(kept[k].0 != id);
    }
    if k < m {
        assert(docs[m].0 == kept[m].0);
        assert(docs[m].0 != id);
    }
    let own = docs[k].1;
    let name = own[i].0;
    lemma_latest(own, name);
    assert(names::value_of(names::latest(own), name) is Some);
    let q = choose|q: int| #[trigger]
        is_last_of(own, q, name) && own[q].1 == names::value_of(names::latest(own), name)->Some_0;
    if q < i {
        assert(own[i].0 != name);
    }
    if i < q {
        assert(own[q].0 != name);
    }
    let several = codec::put_varint(stats.len());
    assert(codec::stands_at(fstats@, 0, put_fstats(stats))) by {
        assert(fstats@.subrange(0, fstats@.len() as int) =~= fstats@);
    }
    codec::lemma_stands_split(fstats@, 0, several, codec::put_many(put_stats(), stats));
    codec::lemma_varint_round_trip(fstats@, 0, stats.len() as u64, "field count");
    assert forall|m: int| 0 <= m < stats.len() implies codec::gives_back(
        norms::take_stats(),
        put_stats(),
        #[trigger] stats[m],
    ) by {
        lemma_stats_gives_back(stats[m]);
    }
    codec::lemma_many_round_trip(
        norms::take_stats(),
        put_stats(),
        stats,
        fstats@,
        several.len() as int,
    );
    lemma_latest(stats, stats[j].0);
    let t = choose|t: int| #[trigger]
        is_last_of(stats, t, stats[j].0) && stats[t].1 == names::value_of(
            names::latest(stats),
            stats[j].0,
        )->Some_0;
    assert(names::value_of(names::latest(stats), stats[j].0) is Some);
    if t < j {
        assert(stats[t].0 != stats[j].0);
    }
    if j < t {
        assert(stats[j].0 != stats[t].0);
    }
}

} // verus!
