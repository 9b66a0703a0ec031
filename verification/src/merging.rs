//! What a merge takes from which segment, and in which order.

use roaring::RoaringTreemap;

use vstd::multiset::*;
use vstd::prelude::*;
use vstd::relations::*;
use vstd::seq_lib::*;

use crate::analyzed::{AnalyzedDocument, AnalyzedTerm};
use crate::data::DataValue;
use crate::error::LaurusError;
use crate::floats;
use crate::names::FieldMap;
use crate::posting::{DecodedPostingList, PostingView};
use crate::replay;
use crate::replay::MergeBuffer;
use crate::segment::{ManagedSegmentInfo, MergeStrategy, SegmentInfo};
use crate::segment_reader;
use crate::segment_reader::{PostingFormat, SegmentReader};
use crate::sort;
use crate::treemap;

verus! {

/// A segment that takes part in a merge, with its reader.
pub struct MergeSource {
    pub managed: ManagedSegmentInfo,
    pub reader: SegmentReader,
}

// ---------------------------------------------------------------------------
// Ranges of ids
// ---------------------------------------------------------------------------

/// Ranges by their starts, then by their ends.
pub open spec fn by_start() -> spec_fn((u64, u64), (u64, u64)) -> bool {
    |a: (u64, u64), b: (u64, u64)| a.0 < b.0 || (a.0 == b.0 && a.1 <= b.1)
}

/// The ranges of ids of the first `n` segments, but of those without documents.
pub open spec fn ranges_of(sources: Seq<&MergeSource>, n: int) -> Seq<(u64, u64)>
    decreases n,
{
    if n <= 0 {
        Seq::empty()
    } else {
        let before = ranges_of(sources, n - 1);
        let info = sources[n - 1].managed.segment_info;
        if info.doc_count > 0 {
            before.push((info.min_doc_id, info.max_doc_id))
        } else {
            before
        }
    }
}

/// Whether of two ranges that follow each other one ends where the other has begun.
pub open spec fn some_touch(ranges: Seq<(u64, u64)>) -> bool {
    exists|k: int|
        1 <= k < ranges.len() && ranges[k - 1].1 >= (#[trigger] ranges[k]).0
}

/// Whether some ranges overlap, by their order.
pub open spec fn ranges_overlap(ranges: Seq<(u64, u64)>) -> bool {
    some_touch(ranges.sort_by(by_start()))
}

proof fn lemma_by_start_total()
    ensures
        total_ordering(by_start()),
{
}

/// Puts a range into sorted ranges.
fn insert_range(sorted: &mut Vec<(u64, u64)>, range: (u64, u64))
    requires
        sorted_by(old(sorted)@, by_start()),
    ensures
        sorted_by(final(sorted)@, by_start()),
        final(sorted)@.to_multiset() == old(sorted)@.to_multiset().insert(range),
{
    let ghost before = sorted@;
    let n: usize = sorted.len();
    let mut i: usize = 0;
    while i < n && (sorted[i].0 < range.0 || (sorted[i].0 == range.0 && sorted[i].1 <= range.1))
        invariant
            n == sorted@.len(),
            i <= n,
            sorted@ == before,
            forall|j: int| 0 <= j < i ==> by_start()(#[trigger] sorted@[j], range),
        decreases n - i,
    {
        i = i + 1;
    }
    sorted.insert(i, range);
    proof {
        broadcast use group_to_multiset_ensures;

        let after = sorted@;
        assert(after =~= before.insert(i as int, range));
        assert forall|a: int, b: int| 0 <= a < b < after.len() implies (by_start())(
            after[a],
            after[b],
        ) by {
            if a < i && b > i {
                assert(after[a] == before[a] && after[b] == before[b - 1]);
                assert(by_start()(before[a], before[b - 1]));
            } else if a < i && b == i {
                assert(after[a] == before[a]);
            } else if a == i {
                assert(after[b] == before[b - 1]);
                assert(by_start()(range, before[i as int]));
                if b - 1 > i {
                    assert(by_start()(before[i as int], before[b - 1]));
                }
            } else if a < i {
                assert(by_start()(before[a], before[b]));
            } else {
                assert(by_start()(before[a - 1], before[b - 1]));
            }
        }
    }
}

/// Whether the ranges of ids of some segments overlap. A segment without documents has
/// no range.
pub fn doc_id_ranges_overlap(sources: &Vec<&MergeSource>) -> (r: bool)
    ensures
        r == ranges_overlap(ranges_of(sources@, sources@.len() as int)),
{
    let n: usize = sources.len();
    let mut sorted: Vec<(u64, u64)> = Vec::new();
    let mut i: usize = 0;
    proof {
        broadcast use group_to_multiset_ensures;

        assert(sorted@ =~= ranges_of(sources@, 0));
    }
    while i < n
        invariant
            n == sources@.len(),
            i <= n,
            sorted_by(sorted@, by_start()),
            sorted@.to_multiset() == ranges_of(sources@, i as int).to_multiset(),
        decreases n - i,
    {
        let info = &sources[i].managed.segment_info;
        if info.doc_count > 0 {
            insert_range(&mut sorted, (info.min_doc_id, info.max_doc_id));
            proof {
                broadcast use group_to_multiset_ensures;

            }
        }
        i = i + 1;
    }
    let ghost ranges = ranges_of(sources@, n as int);
    proof {
        lemma_by_start_total();
        ranges.lemma_sort_by_ensures(by_start());
        lemma_sorted_unique(sorted@, ranges.sort_by(by_start()), by_start());
    }
    let m: usize = sorted.len();
    let mut k: usize = 1;
    while k < m
        invariant
            m == sorted@.len(),
            1 <= k,
            k <= m || m == 0,
            sorted@ == ranges_of(sources@, sources@.len() as int).sort_by(by_start()),
            forall|j: int| 1 <= j < k ==> sorted@[j - 1].1 < (#[trigger] sorted@[j]).0,
        decreases m - k,
    {
        if sorted[k - 1].1 >= sorted[k].0 {
            assert(sorted@[k - 1].1 >= sorted@[k as int].0);
            return true;
        }
        k = k + 1;
    }
    false
}

/// Of ranges that do not end before they begin, some overlap by their order if and only
/// if two of them have an id in common.
pub proof fn lemma_overlap_is_common_id(ranges: Seq<(u64, u64)>)
    requires
        forall|i: int| 0 <= i < ranges.len() ==> (#[trigger] ranges[i]).0 <= ranges[i].1,
    ensures
        ranges_overlap(ranges) <==> exists|i: int, j: int|
            0 <= i < j < ranges.len() && in_common(#[trigger] ranges[i], #[trigger] ranges[j]),
{
    broadcast use group_to_multiset_ensures;

    let sorted = ranges.sort_by(by_start());
    lemma_by_start_total();
    ranges.lemma_sort_by_ensures(by_start());
    lemma_common_moves(ranges, sorted);
    lemma_common_moves(sorted, ranges);
    assert forall|i: int| 0 <= i < sorted.len() implies (#[trigger] sorted[i]).0 <= sorted[i].1 by {
        assert(sorted.contains(sorted[i]));
        assert(ranges.contains(sorted[i]));
    }
    if some_touch(sorted) {
        let k = choose|k: int|
            1 <= k < sorted.len() && sorted[k - 1].1 >= (#[trigger] sorted[k]).0;
        assert(by_start()(sorted[k - 1], sorted[k]));
        assert(in_common(sorted[k - 1], sorted[k]));
        assert(some_common(sorted));
    }
    if some_common(sorted) {
        let (i, j) = choose|i: int, j: int|
            0 <= i < j < sorted.len() && in_common(#[trigger] sorted[i], #[trigger] sorted[j]);
        if i + 1 < j {
            assert(by_start()(sorted[i + 1], sorted[j]));
        }
        assert(sorted[i].1 >= sorted[i + 1].0);
    }
}

/// Whether two ranges have an id in common.
pub open spec fn in_common(a: (u64, u64), b: (u64, u64)) -> bool {
    a.0 <= b.1 && b.0 <= a.1
}

spec fn some_common(ranges: Seq<(u64, u64)>) -> bool {
    exists|i: int, j: int|
        0 <= i < j < ranges.len() && in_common(#[trigger] ranges[i], #[trigger] ranges[j])
}

/// Two ranges with an id in common are in every order of the ranges.
proof fn lemma_common_moves(a: Seq<(u64, u64)>, b: Seq<(u64, u64)>)
    requires
        a.to_multiset() == b.to_multiset(),
    ensures
        some_common(a) ==> some_common(b),
{
    broadcast use group_to_multiset_ensures;

    if some_common(a) {
        let (i, j) = choose|i: int, j: int|
            0 <= i < j < a.len() && in_common(#[trigger] a[i], #[trigger] a[j]);
        let x = a[i];
        let y = a[j];
        assert(a.contains(x) && a.contains(y));
        assert(a.to_multiset().count(x) > 0);
        assert(b.contains(x));
        let p = choose|p: int| 0 <= p < b.len() && b[p] == x;
        let a2 = a.remove(i);
        let b2 = b.remove(p);
        assert(a2.to_multiset() == b2.to_multiset());
        assert(a2[j - 1] == y);
        assert(a2.contains(y));
        assert(a2.to_multiset().count(y) > 0);
        assert(b2.contains(y));
        let q = choose|q: int| 0 <= q < b2.len() && b2[q] == y;
        let q2 = if q < p {
            q
        } else {
            q + 1
        };
        assert(b[q2] == y);
        if p < q2 {
            assert(in_common(b[p], b[q2]));
        } else {
            assert(in_common(b[q2], b[p]));
        }
    }
}

// ---------------------------------------------------------------------------
// Which segment a document is taken from
// ---------------------------------------------------------------------------

/// The deleted documents of a segment; none where the record of them cannot be read.
pub open spec fn deletions_of(reader: SegmentReader) -> Set<u64> {
    match reader.gone() {
        Ok(g) => g,
        Err(_) => Set::empty(),
    }
}

/// The documents that a segment stores and that are not deleted.
pub open spec fn live_ids(reader: SegmentReader) -> Set<u64> {
    Set::new(
        |id: u64|
            reader.documents()->Ok_0.contains_key(id) && !deletions_of(reader).contains(id),
    )
}

/// The documents that are taken from a segment: its live ones, but those that are live
/// in a later segment too.
pub open spec fn owned_by(sources: Seq<&MergeSource>, i: int) -> Set<u64> {
    Set::new(
        |id: u64|
            live_ids(sources[i].reader).contains(id) && forall|j: int|
                i < j < sources.len() ==> !live_ids((#[trigger] sources[j]).reader).contains(id),
    )
}

/// Whether a document is live in one of the segments from `from` on.
pub open spec fn live_from(sources: Seq<&MergeSource>, from: int, id: u64) -> bool {
    exists|j: int|
        from <= j < sources.len() && live_ids((#[trigger] sources[j]).reader).contains(id)
}

/// Every live document is taken from exactly one segment.
pub proof fn lemma_owned_once(sources: Seq<&MergeSource>, id: u64)
    requires
        live_from(sources, 0, id),
    ensures
        exists|i: int| 0 <= i < sources.len() && #[trigger] owned_by(sources, i).contains(id),
        forall|i: int, j: int|
            0 <= i < sources.len() && 0 <= j < sources.len() && #[trigger] owned_by(
                sources,
                i,
            ).contains(id) && #[trigger] owned_by(sources, j).contains(id) ==> i == j,
{
    let first = choose|j: int|
        0 <= j < sources.len() && live_ids((#[trigger] sources[j]).reader).contains(id);
    lemma_last_live(sources, first, id);
    assert forall|i: int, j: int|
        0 <= i < sources.len() && 0 <= j < sources.len() && #[trigger] owned_by(
            sources,
            i,
        ).contains(id) && #[trigger] owned_by(sources, j).contains(id) implies i == j by {
        if i < j {
            assert(live_ids(sources[j].reader).contains(id));
        }
        if j < i {
            assert(live_ids(sources[i].reader).contains(id));
        }
    }
}

proof fn lemma_last_live(sources: Seq<&MergeSource>, from: int, id: u64)
    requires
        0 <= from < sources.len(),
        live_ids(sources[from].reader).contains(id),
    ensures
        exists|i: int|
            from <= i < sources.len() && #[trigger] owned_by(sources, i).contains(id),
    decreases sources.len() - from,
{
    if live_from(sources, from + 1, id) {
        let j = choose|j: int|
            from + 1 <= j < sources.len() && live_ids((#[trigger] sources[j]).reader).contains(id);
        lemma_last_live(sources, j, id);
        let i = choose|i: int|
            j <= i < sources.len() && #[trigger] owned_by(sources, i).contains(id);
        assert(owned_by(sources, i).contains(id));
    } else {
        assert forall|j: int| from < j < sources.len() implies !live_ids(
            (#[trigger] sources[j]).reader,
        ).contains(id) by {}
        assert(owned_by(sources, from).contains(id));
    }
}

/// The deleted documents of a segment.
pub fn load_deleted_docs(reader: &SegmentReader) -> (r: RoaringTreemap)
    ensures
        treemap::treemap_ids(r) == deletions_of(*reader),
{
    let mut ids: RoaringTreemap = treemap::treemap_new();
    match reader.deletion_bitmap() {
        Ok(Some(bitmap)) => {
            treemap::treemap_unite(&mut ids, bitmap.deleted_docs());
            assert(treemap::treemap_ids(ids) =~= deletions_of(*reader));
        },
        _ => {},
    }
    ids
}

/// The live documents of a segment.
fn live_docs(reader: &SegmentReader) -> (r: Result<RoaringTreemap, LaurusError>)
    ensures
        match reader.documents() {
            Err(e) => r is Err && r->Err_0 == e,
            Ok(_) => r is Ok && treemap::treemap_ids(r->Ok_0) == live_ids(*reader),
        },
{
    let deleted: RoaringTreemap = load_deleted_docs(reader);
    let stored: Vec<u64> = match reader.doc_ids() {
        Ok(v) => v,
        Err(e) => return Err(e),
    };
    let mut ids: RoaringTreemap = treemap::treemap_new();
    let n: usize = stored.len();
    let mut i: usize = 0;
    while i < n
        invariant
            n == stored@.len(),
            i <= n,
            treemap::treemap_ids(deleted) == deletions_of(*reader),
            forall|id: u64| #[trigger]
                treemap::treemap_ids(ids).contains(id) <==> stored@.take(i as int).contains(id)
                    && !deletions_of(*reader).contains(id),
        decreases n - i,
    {
        let id: u64 = stored[i];
        let ghost done = stored@.take(i as int);
        let ghost before = treemap::treemap_ids(ids);
        if !treemap::treemap_contains(&deleted, id) {
            let _fresh: bool = treemap::treemap_insert(&mut ids, id);
        }
        proof {
            let more = stored@.take(i + 1);
            assert(more =~= done.push(id));
            assert forall|x: u64| #[trigger]
                treemap::treemap_ids(ids).contains(x) <==> more.contains(x) && !deletions_of(
                    *reader,
                ).contains(x) by {
                assert(before.contains(x) <==> done.contains(x) && !deletions_of(*reader).contains(
                    x,
                ));
                if done.contains(x) {
                    let k = choose|k: int| 0 <= k < done.len() && done[k] == x;
                    assert(more[k] == x);
                }
                if more.contains(x) {
                    let k = choose|k: int| 0 <= k < more.len() && more[k] == x;
                    if k < done.len() {
                        assert(done[k] == x);
                    }
                }
                assert(more[i as int] == id);
            }
        }
        i = i + 1;
    }
    proof {
        assert(stored@.take(n as int) =~= stored@);
        assert forall|id: u64| #[trigger]
            treemap::treemap_ids(ids).contains(id) <==> live_ids(*reader).contains(id) by {
            assert(stored@.to_set().contains(id) <==> stored@.contains(id));
        }
        assert(treemap::treemap_ids(ids) =~= live_ids(*reader));
    }
    Ok(ids)
}

/// Whether the ranges of ids of these segments overlap.
pub open spec fn sources_overlap(sources: Seq<&MergeSource>) -> bool {
    ranges_overlap(ranges_of(sources, sources.len() as int))
}

/// Which documents are taken from which segment, where the ranges of ids of the segments
/// overlap.
pub fn resolve_owned_doc_ids(sources: &Vec<&MergeSource>) -> (r: Result<
    Option<Vec<RoaringTreemap>>,
    LaurusError,
>)
    ensures
        match r {
            Ok(None) => !sources_overlap(sources@),
            Ok(Some(owned)) => {
                &&& sources_overlap(sources@)
                &&& documents_before(sources@, sources@.len() as int)
                &&& owned@.len() == sources@.len()
                &&& forall|i: int|
                    0 <= i < sources@.len() ==> treemap::treemap_ids(#[trigger] owned@[i])
                        == owned_by(sources@, i)
            },
            Err(e) => sources_overlap(sources@) && owners_fail(sources@, e),
        },
{
    if !doc_id_ranges_overlap(sources) {
        return Ok(None);
    }
    let n: usize = sources.len();
    let mut live: Vec<RoaringTreemap> = Vec::new();
    let mut i: usize = 0;
    while i < n
        invariant
            n == sources@.len(),
            i <= n,
            sources_overlap(sources@),
            documents_before(sources@, i as int),
            live@.len() == i,
            forall|k: int|
                0 <= k < i ==> treemap::treemap_ids(#[trigger] live@[k]) == live_ids(
                    sources@[k].reader,
                ),
        decreases n - i,
    {
        match live_docs(&sources[i].reader) {
            Ok(ids) => live.push(ids),
            Err(e) => {
                assert(sources@[i as int].reader.documents() is Err);
                return Err(e);
            },
        }
        i = i + 1;
    }
    let mut back: Vec<RoaringTreemap> = Vec::new();
    let mut seen: RoaringTreemap = treemap::treemap_new();
    let mut left: usize = n;
    while left > 0
        invariant
            n == sources@.len(),
            left <= n,
            live@.len() == n,
            forall|k: int|
                0 <= k < n ==> treemap::treemap_ids(#[trigger] live@[k]) == live_ids(
                    sources@[k].reader,
                ),
            back@.len() == n - left,
            forall|k: int|
                0 <= k < back@.len() ==> treemap::treemap_ids(#[trigger] back@[k]) == owned_by(
                    sources@,
                    n - 1 - k,
                ),
            forall|id: u64| #[trigger]
                treemap::treemap_ids(seen).contains(id) <==> live_from(sources@, left as int, id),
        decreases left,
    {
        left = left - 1;
        let ghost before = treemap::treemap_ids(seen);
        let own: RoaringTreemap = treemap::treemap_difference(&live[left], &seen);
        proof {
            assert forall|id: u64| #[trigger]
                treemap::treemap_ids(own).contains(id) <==> owned_by(sources@, left as int).contains(
                    id,
                ) by {
                assert(before.contains(id) <==> live_from(sources@, left + 1, id));
                if owned_by(sources@, left as int).contains(id) && live_from(
                    sources@,
                    left + 1,
                    id,
                ) {
                    let j = choose|j: int|
                        left + 1 <= j < sources@.len() && live_ids(
                            (#[trigger] sources@[j]).reader,
                        ).contains(id);
                    assert(!live_ids(sources@[j].reader).contains(id));
                }
            }
            assert(treemap::treemap_ids(own) =~= owned_by(sources@, left as int));
        }
        back.push(own);
        treemap::treemap_unite(&mut seen, &live[left]);
        proof {
            assert forall|id: u64| #[trigger]
                treemap::treemap_ids(seen).contains(id) <==> live_from(sources@, left as int, id) by {
                assert(before.contains(id) <==> live_from(sources@, left + 1, id));
                if live_from(sources@, left as int, id) {
                    let j = choose|j: int|
                        left <= j < sources@.len() && live_ids(
                            (#[trigger] sources@[j]).reader,
                        ).contains(id);
                    if j > left {
                        assert(live_from(sources@, left + 1, id));
                    }
                }
                if live_from(sources@, left + 1, id) {
                    let j = choose|j: int|
                        left + 1 <= j < sources@.len() && live_ids(
                            (#[trigger] sources@[j]).reader,
                        ).contains(id);
                    assert(live_ids(sources@[j].reader).contains(id));
                }
                if treemap::treemap_ids(live@[left as int]).contains(id) {
                    assert(live_ids(sources@[left as int].reader).contains(id));
                }
            }
        }
    }
    let owned: Vec<RoaringTreemap> = sort::reversed(back);
    Ok(Some(owned))
}

// ---------------------------------------------------------------------------
// What a merge gathers
// ---------------------------------------------------------------------------

/// The documents that are asked of a segment: where the ranges of ids overlap, those
/// that are taken from it, and else all.
pub open spec fn asked_of(sources: Seq<&MergeSource>, i: int) -> Option<Set<u64>> {
    if sources_overlap(sources) {
        Some(owned_by(sources, i))
    } else {
        None
    }
}

/// Whether a document is live in a segment and asked of it.
pub open spec fn is_taken(sources: Seq<&MergeSource>, i: int, id: u64) -> bool {
    replay::is_chosen(
        sources[i].reader,
        deletions_of(sources[i].reader),
        asked_of(sources, i),
    )(id)
}

/// Whether a document is taken from one of the first `n` segments.
pub open spec fn taken_before(sources: Seq<&MergeSource>, n: int, id: u64) -> bool {
    exists|s: int| 0 <= s < n && #[trigger] is_taken(sources, s, id)
}

/// The ids of documents.
pub open spec fn ids_of(docs: Seq<(u64, AnalyzedDocument)>) -> Seq<u64> {
    docs.map_values(|d: (u64, AnalyzedDocument)| d.0)
}

/// Whether these are the postings of every name of the dictionary of a segment.
pub open spec fn listed_whole<
    D: Fn(&SegmentInfo, u64, PostingFormat) -> Result<DecodedPostingList, LaurusError>,
    N: Fn(&str, &DataValue) -> Result<Vec<AnalyzedTerm>, LaurusError>,
>(decode: D, analyze: N, reader: SegmentReader, outs: Seq<Option<Seq<PostingView>>>) -> bool {
    &&& outs.len() == replay::reader_keys(reader).len()
    &&& replay::are_listed(decode, analyze, reader, None, replay::reader_keys(reader), outs)
}

/// Whether a document was carried over from a segment.
pub open spec fn comes_from<
    D: Fn(&SegmentInfo, u64, PostingFormat) -> Result<DecodedPostingList, LaurusError>,
    N: Fn(&str, &DataValue) -> Result<Vec<AnalyzedTerm>, LaurusError>,
>(decode: D, analyze: N, reader: SegmentReader, id: u64, a: AnalyzedDocument) -> bool {
    exists|outs: Seq<Option<Seq<PostingView>>>| #[trigger]
        listed_whole(decode, analyze, reader, outs) && replay::is_replayed(reader, outs, id, a)
}

/// Whether a document was carried over from one of the first `n` segments, from which it
/// is taken.
pub open spec fn is_gathered<
    D: Fn(&SegmentInfo, u64, PostingFormat) -> Result<DecodedPostingList, LaurusError>,
    N: Fn(&str, &DataValue) -> Result<Vec<AnalyzedTerm>, LaurusError>,
>(
    decode: D,
    analyze: N,
    sources: Seq<&MergeSource>,
    n: int,
    id: u64,
    a: AnalyzedDocument,
) -> bool {
    exists|s: int|
        0 <= s < n && #[trigger] is_taken(sources, s, id) && comes_from(
            decode,
            analyze,
            sources[s].reader,
            id,
            a,
        )
}

/// Whether the documents of the first `n` segments were gathered, each once.
pub open spec fn gathered<
    D: Fn(&SegmentInfo, u64, PostingFormat) -> Result<DecodedPostingList, LaurusError>,
    N: Fn(&str, &DataValue) -> Result<Vec<AnalyzedTerm>, LaurusError>,
>(
    decode: D,
    analyze: N,
    sources: Seq<&MergeSource>,
    n: int,
    docs: Seq<(u64, AnalyzedDocument)>,
) -> bool {
    &&& ids_of(docs).no_duplicates()
    &&& forall|id: u64| #[trigger] ids_of(docs).contains(id) <==> taken_before(sources, n, id)
    &&& forall|j: int|
        0 <= j < docs.len() ==> is_gathered(
            decode,
            analyze,
            sources,
            n,
            (#[trigger] docs[j]).0,
            docs[j].1,
        )
    &&& forall|s: int, t: int, id: u64|
        0 <= s < t < n && #[trigger] is_taken(sources, s, id) ==> !#[trigger] is_taken(
            sources,
            t,
            id,
        )
}

/// Whether what was handed to the writer before and after a segment is right.
pub open spec fn step_at<
    D: Fn(&SegmentInfo, u64, PostingFormat) -> Result<DecodedPostingList, LaurusError>,
    N: Fn(&str, &DataValue) -> Result<Vec<AnalyzedTerm>, LaurusError>,
    C: Fn(&DataValue) -> bool,
>(
    decode: D,
    analyze: N,
    candidate: C,
    sources: Seq<&MergeSource>,
    before: MergeBuffer,
    after: MergeBuffer,
    i: int,
) -> bool {
    let reader = sources[i].reader;
    &&& replay::can_be_replayed(reader, deletions_of(reader), None)
    &&& exists|outs: Seq<Option<Seq<PostingView>>>| #[trigger]
        replay::replay_done(
            decode,
            analyze,
            candidate,
            reader,
            deletions_of(reader),
            asked_of(sources, i),
            before,
            after,
            outs,
        )
}

/// A document that is live for a replay is a live one.
proof fn lemma_live(reader: SegmentReader, id: u64)
    ensures
        replay::is_live(reader, deletions_of(reader), id) ==> live_ids(reader).contains(id),
        replay::can_be_replayed(reader, deletions_of(reader), None) && live_ids(reader).contains(id)
            ==> replay::is_live(reader, deletions_of(reader), id),
{
    if replay::can_be_replayed(reader, deletions_of(reader), None) && live_ids(reader).contains(id) {
        assert(reader.documents()->Ok_0.contains_key(id));
    }
}

proof fn lemma_gather_step<
    D: Fn(&SegmentInfo, u64, PostingFormat) -> Result<DecodedPostingList, LaurusError>,
    N: Fn(&str, &DataValue) -> Result<Vec<AnalyzedTerm>, LaurusError>,
    C: Fn(&DataValue) -> bool,
>(
    decode: D,
    analyze: N,
    candidate: C,
    sources: Seq<&MergeSource>,
    n: int,
    before: MergeBuffer,
    after: MergeBuffer,
)
    requires
        0 <= n < sources.len(),
        gathered(decode, analyze, sources, n, before.documents@),
        step_at(decode, analyze, candidate, sources, before, after, n),
        forall|j: int|
            0 <= j < chosen_at(sources, n).len() ==> !ids_of(before.documents@).contains(
                #[trigger] chosen_at(sources, n)[j],
            ),
    ensures
        gathered(decode, analyze, sources, n + 1, after.documents@),
        ids_of(after.documents@).to_set() == ids_of(before.documents@).to_set().union(
            chosen_at(sources, n).to_set(),
        ),
{
    let reader = sources[n].reader;
    let gone = deletions_of(reader);
    let asked = asked_of(sources, n);
    let chosen = chosen_at(sources, n);
    let m = before.documents@.len() as int;
    let outs = choose|outs: Seq<Option<Seq<PostingView>>>| #[trigger]
        replay::replay_done(
            decode,
            analyze,
            candidate,
            reader,
            gone,
            asked,
            before,
            after,
            outs,
        );
    replay::lemma_chosen_ids(reader, gone, asked);
    let old_ids = ids_of(before.documents@);
    let ids = ids_of(after.documents@);
    let tail = after.documents@.skip(m);
    assert(replay::are_replayed(reader, outs, chosen, tail));
    assert(ids =~= old_ids + chosen) by {
        assert forall|j: int| 0 <= j < ids.len() implies ids[j] == (old_ids + chosen)[j] by {
            if j < m {
                assert(after.documents@.take(m)[j] == before.documents@[j]);
            } else {
                assert(tail[j - m].0 == chosen[j - m]);
            }
        }
    }
    assert forall|id: u64| #[trigger] ids.contains(id) <==> old_ids.contains(id) || chosen.contains(
        id,
    ) by {
        if old_ids.contains(id) {
            let j = choose|j: int| 0 <= j < old_ids.len() && old_ids[j] == id;
            assert(ids[j] == id);
        }
        if chosen.contains(id) {
            let j = choose|j: int| 0 <= j < chosen.len() && chosen[j] == id;
            assert(ids[m + j] == id);
        }
        if ids.contains(id) {
            let j = choose|j: int| 0 <= j < ids.len() && ids[j] == id;
            if j < m {
                assert(old_ids[j] == id);
            } else {
                assert(chosen[j - m] == id);
            }
        }
    }
    assert(ids.to_set() =~= old_ids.to_set().union(chosen.to_set()));
    assert forall|i: int, j: int| 0 <= i < j < ids.len() implies ids[i] != ids[j] by {
        if j < m {
            assert(old_ids[i] != old_ids[j]);
        } else if i < m {
            assert(old_ids.contains(old_ids[i]));
            assert(!old_ids.contains(chosen[j - m]));
        } else {
            assert(chosen[i - m] < chosen[j - m]);
        }
    }
    assert forall|id: u64| #[trigger] ids.contains(id) <==> taken_before(sources, n + 1, id) by {
        assert(old_ids.contains(id) <==> taken_before(sources, n, id));
        assert(chosen.contains(id) <==> is_taken(sources, n, id));
        if taken_before(sources, n + 1, id) {
            let s = choose|s: int| 0 <= s < n + 1 && #[trigger] is_taken(sources, s, id);
            if s < n {
                assert(taken_before(sources, n, id));
            }
        }
    }
    assert forall|j: int| 0 <= j < after.documents@.len() implies is_gathered(
        decode,
        analyze,
        sources,
        n + 1,
        (#[trigger] after.documents@[j]).0,
        after.documents@[j].1,
    ) by {
        let d = after.documents@[j];
        if j < m {
            assert(after.documents@.take(m)[j] == before.documents@[j]);
            assert(is_gathered(decode, analyze, sources, n, d.0, d.1));
        } else {
            assert(tail[j - m] == d);
            assert(chosen.contains(chosen[j - m]));
            assert(is_taken(sources, n, d.0));
            assert(listed_whole(decode, analyze, reader, outs));
            assert(comes_from(decode, analyze, reader, d.0, d.1));
        }
    }
    assert forall|s: int, t: int, id: u64|
        0 <= s < t < n + 1 && #[trigger] is_taken(sources, s, id) implies !#[trigger] is_taken(
        sources,
        t,
        id,
    ) by {
        if t == n && is_taken(sources, t, id) {
            assert(taken_before(sources, n, id));
            assert(old_ids.contains(id));
            assert(chosen.contains(id));
            let j = choose|j: int| 0 <= j < chosen.len() && chosen[j] == id;
            assert(!old_ids.contains(chosen[j]));
        }
    }
}

/// The documents that are taken from a segment, in ascending order.
pub open spec fn chosen_at(sources: Seq<&MergeSource>, i: int) -> Seq<u64> {
    replay::chosen_ids(
        sources[i].reader,
        deletions_of(sources[i].reader),
        asked_of(sources, i),
    )
}

/// Whether every segment can be replayed.
pub open spec fn all_replayable(sources: Seq<&MergeSource>) -> bool {
    forall|i: int|
        0 <= i < sources.len() ==> replay::can_be_replayed(
            (#[trigger] sources[i]).reader,
            deletions_of(sources[i].reader),
            None,
        )
}

/// Whether these documents are those of the segments: every live one once, carried over
/// from the last segment in which it is live.
pub open spec fn are_merged<
    D: Fn(&SegmentInfo, u64, PostingFormat) -> Result<DecodedPostingList, LaurusError>,
    N: Fn(&str, &DataValue) -> Result<Vec<AnalyzedTerm>, LaurusError>,
>(decode: D, analyze: N, sources: Seq<&MergeSource>, docs: Seq<(u64, AnalyzedDocument)>) -> bool {
    &&& ids_of(docs).no_duplicates()
    &&& forall|id: u64| #[trigger] ids_of(docs).contains(id) <==> live_from(sources, 0, id)
    &&& forall|j: int|
        0 <= j < docs.len() ==> is_from_owner(
            decode,
            analyze,
            sources,
            (#[trigger] docs[j]).0,
            docs[j].1,
        )
}

/// Whether a document was carried over from the last segment in which it is live.
pub open spec fn is_from_owner<
    D: Fn(&SegmentInfo, u64, PostingFormat) -> Result<DecodedPostingList, LaurusError>,
    N: Fn(&str, &DataValue) -> Result<Vec<AnalyzedTerm>, LaurusError>,
>(decode: D, analyze: N, sources: Seq<&MergeSource>, id: u64, a: AnalyzedDocument) -> bool {
    exists|i: int|
        0 <= i < sources.len() && #[trigger] owned_by(sources, i).contains(id) && comes_from(
            decode,
            analyze,
            sources[i].reader,
            id,
            a,
        )
}

/// What was gathered from all segments are their documents, each from its owner.
proof fn lemma_gathered_all<
    D: Fn(&SegmentInfo, u64, PostingFormat) -> Result<DecodedPostingList, LaurusError>,
    N: Fn(&str, &DataValue) -> Result<Vec<AnalyzedTerm>, LaurusError>,
>(decode: D, analyze: N, sources: Seq<&MergeSource>, docs: Seq<(u64, AnalyzedDocument)>)
    requires
        gathered(decode, analyze, sources, sources.len() as int, docs),
        all_replayable(sources),
    ensures
        are_merged(decode, analyze, sources, docs),
{
    let n = sources.len() as int;
    assert forall|s: int, id: u64| 0 <= s < n && #[trigger] is_taken(sources, s, id) implies owned_by(
        sources,
        s,
    ).contains(id) by {
        lemma_live(sources[s].reader, id);
        assert forall|j: int| s < j < n implies !live_ids((#[trigger] sources[j]).reader).contains(
            id,
        ) by {
            if live_ids(sources[j].reader).contains(id) {
                lemma_live(sources[j].reader, id);
                if !sources_overlap(sources) {
                    assert(is_taken(sources, j, id));
                } else {
                    assert(owned_by(sources, s).contains(id));
                }
            }
        }
    }
    assert forall|s: int, id: u64| 0 <= s < n && #[trigger] owned_by(sources, s).contains(id) implies is_taken(
        sources,
        s,
        id,
    ) by {
        lemma_live(sources[s].reader, id);
    }
    let ids = ids_of(docs);
    assert forall|id: u64| #[trigger] ids.contains(id) <==> live_from(sources, 0, id) by {
        assert(ids.contains(id) <==> taken_before(sources, n, id));
        if taken_before(sources, n, id) {
            let s = choose|s: int| 0 <= s < n && #[trigger] is_taken(sources, s, id);
            assert(owned_by(sources, s).contains(id));
            assert(live_ids(sources[s].reader).contains(id));
        }
        if live_from(sources, 0, id) {
            lemma_owned_once(sources, id);
            let s = choose|s: int| 0 <= s < n && #[trigger] owned_by(sources, s).contains(id);
            assert(is_taken(sources, s, id));
        }
    }
    assert forall|j: int| 0 <= j < docs.len() implies is_from_owner(
        decode,
        analyze,
        sources,
        (#[trigger] docs[j]).0,
        docs[j].1,
    ) by {
        let d = docs[j];
        assert(is_gathered(decode, analyze, sources, n, d.0, d.1));
        let s = choose|s: int|
            0 <= s < n && #[trigger] is_taken(sources, s, d.0) && comes_from(
                decode,
                analyze,
                sources[s].reader,
                d.0,
                d.1,
            );
        assert(owned_by(sources, s).contains(d.0));
    }
}

/// How many deleted documents the first `n` segments have.
pub open spec fn total_deleted(sources: Seq<&MergeSource>, n: int) -> nat
    decreases n,
{
    if n <= 0 {
        0
    } else {
        total_deleted(sources, n - 1) + deletions_of(sources[n - 1].reader).len()
    }
}

proof fn lemma_total_deleted_grows(sources: Seq<&MergeSource>, a: int, b: int)
    requires
        a <= b,
    ensures
        total_deleted(sources, a) <= total_deleted(sources, b),
    decreases b - a,
{
    if a < b {
        lemma_total_deleted_grows(sources, a, b - 1);
    }
}

/// Whether the stored documents of the first `n` segments can be had.
pub open spec fn documents_before(sources: Seq<&MergeSource>, n: int) -> bool {
    forall|k: int| 0 <= k < n ==> (#[trigger] sources[k]).reader.documents() is Ok
}

/// Whether the owners of documents cannot be told for this reason: the stored documents
/// of a segment cannot be had, while those of the segments before it can.
pub open spec fn owners_fail(sources: Seq<&MergeSource>, e: LaurusError) -> bool {
    exists|i: int|
        0 <= i < sources.len() && documents_before(sources, i) && (
        #[trigger] sources[i]).reader.documents() is Err && sources[i].reader.documents()->Err_0
            == e
}

/// Whether the first `n` segments can be replayed.
pub open spec fn replayable_before<
    D: Fn(&SegmentInfo, u64, PostingFormat) -> Result<DecodedPostingList, LaurusError>,
    N: Fn(&str, &DataValue) -> Result<Vec<AnalyzedTerm>, LaurusError>,
>(decode: D, analyze: N, sources: Seq<&MergeSource>, n: int) -> bool {
    forall|k: int|
        0 <= k < n ==> replay::can_be_replayed(
            (#[trigger] sources[k]).reader,
            deletions_of(sources[k].reader),
            None,
        ) && replay::can_be_listed(decode, analyze, sources[k].reader, None)
}

/// Whether the first document of a segment that is taken from one before it, too, is told
/// of.
pub open spec fn tells_of_taken(sources: Seq<&MergeSource>, i: int, e: LaurusError) -> bool {
    exists|id: u64|
        is_taken(sources, i, id) && #[trigger] taken_before(sources, i, id) && e == (
        LaurusError::EmittedTwice { doc_id: id }) && forall|j: u64|
            is_taken(sources, i, j) && #[trigger] taken_before(sources, i, j) ==> id <= j
}

/// Whether a segment cannot be taken into a merge for this reason: it cannot be replayed,
/// or else, where the ranges of ids are said not to overlap, it has a document that a
/// segment before it has.
pub open spec fn source_fails<
    D: Fn(&SegmentInfo, u64, PostingFormat) -> Result<DecodedPostingList, LaurusError>,
    N: Fn(&str, &DataValue) -> Result<Vec<AnalyzedTerm>, LaurusError>,
>(decode: D, analyze: N, sources: Seq<&MergeSource>, i: int, e: LaurusError) -> bool {
    let reader = sources[i].reader;
    ||| replay::replay_fails(decode, analyze, reader, deletions_of(reader), None, e)
    ||| !sources_overlap(sources) && replay::can_be_listed(decode, analyze, reader, None)
        && replay::can_be_replayed(reader, deletions_of(reader), None) && tells_of_taken(
        sources,
        i,
        e,
    )
}

/// Whether a segment cannot be taken into a merge for this reason, while those before it
/// can.
pub open spec fn gathering_fails<
    D: Fn(&SegmentInfo, u64, PostingFormat) -> Result<DecodedPostingList, LaurusError>,
    N: Fn(&str, &DataValue) -> Result<Vec<AnalyzedTerm>, LaurusError>,
>(decode: D, analyze: N, sources: Seq<&MergeSource>, e: LaurusError) -> bool {
    exists|i: int|
        0 <= i < sources.len() && replayable_before(decode, analyze, sources, i)
            && #[trigger] source_fails(decode, analyze, sources, i, e)
}

/// Whether a merge fails for this reason. Where the ranges of ids overlap, the owners of
/// the documents come first; then come the segments in their order.
pub open spec fn merge_fails<
    D: Fn(&SegmentInfo, u64, PostingFormat) -> Result<DecodedPostingList, LaurusError>,
    N: Fn(&str, &DataValue) -> Result<Vec<AnalyzedTerm>, LaurusError>,
>(decode: D, analyze: N, sources: Seq<&MergeSource>, e: LaurusError) -> bool {
    if sources_overlap(sources) && !documents_before(sources, sources.len() as int) {
        owners_fail(sources, e)
    } else {
        gathering_fails(decode, analyze, sources, e)
    }
}

/// Whether the writer was handed the segments one after the other, from these settings
/// on.
pub open spec fn merged_through<
    D: Fn(&SegmentInfo, u64, PostingFormat) -> Result<DecodedPostingList, LaurusError>,
    N: Fn(&str, &DataValue) -> Result<Vec<AnalyzedTerm>, LaurusError>,
    C: Fn(&DataValue) -> bool,
>(
    decode: D,
    analyze: N,
    candidate: C,
    sources: Seq<&MergeSource>,
    columns: Seq<(Seq<char>, bool)>,
    bufs: Seq<MergeBuffer>,
    n: int,
) -> bool {
    &&& bufs.len() == n + 1
    &&& bufs[0].term_positions@ == Seq::<(Seq<char>, bool)>::empty()
    &&& bufs[0].doc_values@ == columns
    &&& bufs[0].documents@ == Seq::<(u64, AnalyzedDocument)>::empty()
    &&& forall|i: int|
        1 <= i <= n ==> step_at(
            decode,
            analyze,
            candidate,
            sources,
            bufs[i - 1],
            #[trigger] bufs[i],
            i - 1,
        )
}

/// Hands the documents of all segments to the writer.
#[verifier::rlimit(40)]
pub fn gather<
    D: Fn(&SegmentInfo, u64, PostingFormat) -> Result<DecodedPostingList, LaurusError>,
    N: Fn(&str, &DataValue) -> Result<Vec<AnalyzedTerm>, LaurusError>,
    C: Fn(&DataValue) -> bool,
>(
    sources: &Vec<&MergeSource>,
    owned: &Option<Vec<RoaringTreemap>>,
    columns: FieldMap<bool>,
    decode: &D,
    analyze: &N,
    candidate: &C,
) -> (r: Result<(MergeBuffer, RoaringTreemap, u64), LaurusError>)
    requires
        columns.wf(),
        forall|i: int| 0 <= i < sources@.len() ==> (#[trigger] sources@[i]).reader.wf(),
        forall|s: &SegmentInfo, o: u64, f: PostingFormat| call_requires(*decode, (s, o, f)),
        segment_reader::decodes_well(*decode),
        forall|f: &str, v: &DataValue| call_requires(*analyze, (f, v)),
        forall|v: &DataValue| call_requires(*candidate, (v,)),
        total_deleted(sources@, sources@.len() as int) <= u64::MAX,
        match *owned {
            None => !sources_overlap(sources@),
            Some(o) => sources_overlap(sources@) && o@.len() == sources@.len() && forall|i: int|
                0 <= i < sources@.len() ==> treemap::treemap_ids(#[trigger] o@[i]) == owned_by(
                    sources@,
                    i,
                ),
        },
    ensures
        match r {
            Ok((buffer, emitted, removed)) => {
                &&& buffer.wf()
                &&& all_replayable(sources@)
                &&& are_merged(*decode, *analyze, sources@, buffer.documents@)
                &&& exists|bufs: Seq<MergeBuffer>| #[trigger]
                    merged_through(
                        *decode,
                        *analyze,
                        *candidate,
                        sources@,
                        columns@,
                        bufs,
                        sources@.len() as int,
                    ) && bufs.last() == buffer
                &&& treemap::treemap_ids(emitted) == ids_of(buffer.documents@).to_set()
                &&& removed == total_deleted(sources@, sources@.len() as int)
            },
            Err(e) => gathering_fails(*decode, *analyze, sources@, e),
        },
{
    let n: usize = sources.len();
    let ghost all = sources@;
    let ghost seed = columns@;
    let mut buffer = MergeBuffer {
        term_positions: FieldMap::new(),
        doc_values: columns,
        documents: Vec::new(),
    };
    let mut emitted: RoaringTreemap = treemap::treemap_new();
    let mut removed: u64 = 0;
    let ghost mut bufs: Seq<MergeBuffer> = seq![buffer];
    let mut i: usize = 0;
    proof {
        let none = ids_of(buffer.documents@);
        assert(none.to_set() =~= Set::<u64>::empty());
        assert forall|id: u64| #[trigger] none.contains(id) <==> taken_before(all, 0, id) by {}
        assert(gathered(*decode, *analyze, all, 0, buffer.documents@));
        assert(merged_through(*decode, *analyze, *candidate, all, seed, bufs, 0));
    }
    while i < n
        invariant
            all == sources@,
            n == all.len(),
            i <= n,
            forall|k: int| 0 <= k < all.len() ==> (#[trigger] all[k]).reader.wf(),
            forall|s: &SegmentInfo, o: u64, f: PostingFormat| call_requires(*decode, (s, o, f)),
            segment_reader::decodes_well(*decode),
            forall|f: &str, v: &DataValue| call_requires(*analyze, (f, v)),
            forall|v: &DataValue| call_requires(*candidate, (v,)),
            total_deleted(all, all.len() as int) <= u64::MAX,
            match *owned {
                None => !sources_overlap(all),
                Some(o) => sources_overlap(all) && o@.len() == all.len() && forall|k: int|
                    0 <= k < all.len() ==> treemap::treemap_ids(#[trigger] o@[k]) == owned_by(all, k),
            },
            buffer.wf(),
            bufs.last() == buffer,
            merged_through(*decode, *analyze, *candidate, all, seed, bufs, i as int),
            gathered(*decode, *analyze, all, i as int, buffer.documents@),
            treemap::treemap_ids(emitted) == ids_of(buffer.documents@).to_set(),
            removed == total_deleted(all, i as int),
            replayable_before(*decode, *analyze, all, i as int),
        decreases n - i,
    {
        let reader: &SegmentReader = &sources[i].reader;
        let deleted: RoaringTreemap = load_deleted_docs(reader);
        proof {
            lemma_total_deleted_grows(all, i + 1, n as int);
        }
        removed = removed + treemap::treemap_len(&deleted);
        let own: Option<&RoaringTreemap> = match owned {
            Some(o) => Some(&o[i]),
            None => None,
        };
        let ghost before = buffer;
        let ghost sent = treemap::treemap_ids(emitted);
        assert(replay::owned_ids(own) == asked_of(all, i as int));
        match replay::replay_segment_into_writer(
            reader,
            &deleted,
            own,
            &mut emitted,
            &mut buffer,
            decode,
            analyze,
            candidate,
        ) {
            Ok(_) => {},
            Err(e) => {
                proof {
                    lemma_step_failed(*decode, *analyze, all, i as int, before.documents@, e);
                    assert(source_fails(*decode, *analyze, all, i as int, e));
                }
                return Err(e);
            },
        }
        proof {
            assert(step_at(*decode, *analyze, *candidate, all, before, buffer, i as int));
            let outs = choose|outs: Seq<Option<Seq<PostingView>>>| #[trigger]
                replay::replay_done(
                    *decode,
                    *analyze,
                    *candidate,
                    all[i as int].reader,
                    deletions_of(all[i as int].reader),
                    asked_of(all, i as int),
                    before,
                    buffer,
                    outs,
                );
            assert(replay::are_listed(
                *decode,
                *analyze,
                all[i as int].reader,
                None,
                replay::reader_keys(all[i as int].reader),
                outs,
            ));
            assert(replay::can_be_listed(*decode, *analyze, all[i as int].reader, None));
            assert forall|j: int| 0 <= j < chosen_at(all, i as int).len() implies !ids_of(
                before.documents@,
            ).contains(#[trigger] chosen_at(all, i as int)[j]) by {
                assert(!sent.contains(chosen_at(all, i as int)[j]));
            }
            lemma_gather_step(*decode, *analyze, *candidate, all, i as int, before, buffer);
            let longer = bufs.push(buffer);
            assert forall|k: int| 1 <= k <= i + 1 implies step_at(
                *decode,
                *analyze,
                *candidate,
                all,
                longer[k - 1],
                #[trigger] longer[k],
                k - 1,
            ) by {
                if k <= i {
                    assert(longer[k] == bufs[k]);
                    assert(longer[k - 1] == bufs[k - 1]);
                }
            }
            assert(longer[0] == bufs[0]);
            bufs = longer;
        }
        i = i + 1;
    }
    proof {
        lemma_gathered_all(*decode, *analyze, all, buffer.documents@);
    }
    Ok((buffer, emitted, removed))
}

proof fn lemma_step_failed<
    D: Fn(&SegmentInfo, u64, PostingFormat) -> Result<DecodedPostingList, LaurusError>,
    N: Fn(&str, &DataValue) -> Result<Vec<AnalyzedTerm>, LaurusError>,
>(
    decode: D,
    analyze: N,
    sources: Seq<&MergeSource>,
    i: int,
    docs: Seq<(u64, AnalyzedDocument)>,
    e: LaurusError,
)
    requires
        0 <= i < sources.len(),
        gathered(decode, analyze, sources, i, docs),
        ({
            let reader = sources[i].reader;
            ||| replay::replay_fails(decode, analyze, reader, deletions_of(reader), None, e)
            ||| replay::can_be_listed(decode, analyze, reader, None) && replay::can_be_replayed(
                reader,
                deletions_of(reader),
                None,
            ) && replay::tells_of_twice(
                reader,
                deletions_of(reader),
                asked_of(sources, i),
                ids_of(docs).to_set(),
                e,
            )
        }),
    ensures
        source_fails(decode, analyze, sources, i, e),
{
    let reader = sources[i].reader;
    let sent = ids_of(docs).to_set();
    if !replay::replay_fails(decode, analyze, reader, deletions_of(reader), None, e) {
        let id = choose|id: u64|
            is_taken(sources, i, id) && #[trigger] sent.contains(id) && e == (
            LaurusError::EmittedTwice { doc_id: id }) && forall|j: u64|
                is_taken(sources, i, j) && #[trigger] sent.contains(j) ==> id <= j;
        assert(ids_of(docs).contains(id));
        assert(taken_before(sources, i, id));
        assert forall|j: u64| is_taken(sources, i, j) && #[trigger] taken_before(
            sources,
            i,
            j,
        ) implies id <= j by {
            assert(ids_of(docs).contains(j));
            assert(sent.contains(j));
        }
        let s = choose|s: int| 0 <= s < i && #[trigger] is_taken(sources, s, id);
        lemma_live(sources[i].reader, id);
        if sources_overlap(sources) {
            assert(owned_by(sources, s).contains(id));
            assert(!live_ids(sources[i].reader).contains(id));
        }
        assert(is_taken(sources, s, id) && is_taken(sources, i, id));
    }
}

// ---------------------------------------------------------------------------
// The order of a merge
// ---------------------------------------------------------------------------

/// Whether a segment is among those with these ids.
pub open spec fn is_asked(names: Seq<String>, source: MergeSource) -> bool {
    replay::is_named(names, source.managed.segment_info.segment_id@)
}

/// The places of those of the first `n` segments that are asked for.
pub open spec fn asked_places(sources: Seq<&MergeSource>, names: Seq<String>, n: int) -> Seq<usize>
    decreases n,
{
    if n <= 0 {
        Seq::empty()
    } else {
        let before = asked_places(sources, names, n - 1);
        if is_asked(names, *sources[n - 1]) {
            before.push((n - 1) as usize)
        } else {
            before
        }
    }
}

/// The segments that are asked for.
pub open spec fn asked_sources<'a>(sources: Seq<&'a MergeSource>, names: Seq<String>) -> Seq<
    &'a MergeSource,
> {
    asked_places(sources, names, sources.len() as int).map_values(|p: usize| sources[p as int])
}

/// The segments that are asked for.
pub fn select<'a>(sources: &Vec<&'a MergeSource>, names: &Vec<String>) -> (r: Vec<&'a MergeSource>)
    ensures
        r@ == asked_sources(sources@, names@),
{
    let n: usize = sources.len();
    let mut r: Vec<&'a MergeSource> = Vec::new();
    let mut i: usize = 0;
    while i < n
        invariant
            n == sources@.len(),
            i <= n,
            r@.len() == asked_places(sources@, names@, i as int).len(),
            forall|k: int|
                0 <= k < r@.len() ==> #[trigger] r@[k] == sources@[asked_places(
                    sources@,
                    names@,
                    i as int,
                )[k] as int],
        decreases n - i,
    {
        let source: &'a MergeSource = sources[i];
        if replay::contains_name(names, source.managed.segment_info.segment_id.as_str()) {
            r.push(source);
        }
        i = i + 1;
    }
    assert(r@ =~= asked_sources(sources@, names@));
    r
}

/// The key that puts greater numbers first, by the total order of their patterns.
pub open spec fn greatest_first(bits: u64) -> u64 {
    (u64::MAX - floats::sortable(bits)) as u64
}

/// Whether this may be the key by which a strategy orders a segment.
pub open spec fn is_merge_key<
    S: Fn(&ManagedSegmentInfo) -> u64,
    Q: Fn(&ManagedSegmentInfo) -> u64,
>(strategy: MergeStrategy, share: S, score: Q, segment: ManagedSegmentInfo, key: u64) -> bool {
    match strategy {
        MergeStrategy::SizeBased => key == segment.size_bytes,
        MergeStrategy::TimeBased => key == segment.created_at,
        MergeStrategy::DeletionBased => exists|bits: u64| #[trigger]
            call_ensures(share, (&segment,), bits) && key == greatest_first(bits),
        MergeStrategy::Balanced => exists|bits: u64| #[trigger]
            call_ensures(score, (&segment,), bits) && key == greatest_first(bits),
    }
}

/// Whether these may be the keys by which a strategy orders segments.
pub open spec fn are_merge_keys<
    S: Fn(&ManagedSegmentInfo) -> u64,
    Q: Fn(&ManagedSegmentInfo) -> u64,
>(
    strategy: MergeStrategy,
    share: S,
    score: Q,
    sources: Seq<&MergeSource>,
    keys: Seq<u64>,
) -> bool {
    &&& keys.len() == sources.len()
    &&& forall|i: int|
        0 <= i < keys.len() ==> is_merge_key(
            strategy,
            share,
            score,
            sources[i].managed,
            #[trigger] keys[i],
        )
}

/// The segments in the order of keys, ties in their first order.
pub open spec fn ordered_by<'a>(sources: Seq<&'a MergeSource>, keys: Seq<u64>) -> Seq<
    &'a MergeSource,
> {
    sort::order_of(keys).map_values(|p: usize| sources[p as int])
}

/// Whether this may be the order in which a strategy merges segments.
pub open spec fn is_merge_order<
    S: Fn(&ManagedSegmentInfo) -> u64,
    Q: Fn(&ManagedSegmentInfo) -> u64,
>(
    strategy: MergeStrategy,
    share: S,
    score: Q,
    sources: Seq<&MergeSource>,
    ordered: Seq<&MergeSource>,
) -> bool {
    exists|keys: Seq<u64>| #[trigger]
        are_merge_keys(strategy, share, score, sources, keys) && ordered == ordered_by(
            sources,
            keys,
        )
}

/// The key by which a strategy orders a segment.
fn merge_key<S: Fn(&ManagedSegmentInfo) -> u64, Q: Fn(&ManagedSegmentInfo) -> u64>(
    strategy: MergeStrategy,
    segment: &ManagedSegmentInfo,
    share: &S,
    score: &Q,
) -> (r: u64)
    requires
        forall|s: &ManagedSegmentInfo| call_requires(*share, (s,)),
        forall|s: &ManagedSegmentInfo| call_requires(*score, (s,)),
    ensures
        is_merge_key(strategy, *share, *score, *segment, r),
{
    match strategy {
        MergeStrategy::SizeBased => segment.size_bytes,
        MergeStrategy::TimeBased => segment.created_at,
        MergeStrategy::DeletionBased => {
            let bits: u64 = (*share)(segment);
            assert(call_ensures(*share, (segment,), bits));
            u64::MAX - floats::f64_to_sortable_u64(bits)
        },
        MergeStrategy::Balanced => {
            let bits: u64 = (*score)(segment);
            assert(call_ensures(*score, (segment,), bits));
            u64::MAX - floats::f64_to_sortable_u64(bits)
        },
    }
}

/// The segments in the order in which a strategy merges them.
pub fn arrange<'a, S: Fn(&ManagedSegmentInfo) -> u64, Q: Fn(&ManagedSegmentInfo) -> u64>(
    strategy: MergeStrategy,
    sources: &Vec<&'a MergeSource>,
    share: &S,
    score: &Q,
) -> (r: Vec<&'a MergeSource>)
    requires
        forall|s: &ManagedSegmentInfo| call_requires(*share, (s,)),
        forall|s: &ManagedSegmentInfo| call_requires(*score, (s,)),
    ensures
        is_merge_order(strategy, *share, *score, sources@, r@),
{
    let n: usize = sources.len();
    let mut keys: Vec<u64> = Vec::new();
    let mut i: usize = 0;
    while i < n
        invariant
            forall|s: &ManagedSegmentInfo| call_requires(*share, (s,)),
            forall|s: &ManagedSegmentInfo| call_requires(*score, (s,)),
            n == sources@.len(),
            i <= n,
            keys@.len() == i,
            forall|k: int|
                0 <= k < i ==> is_merge_key(
                    strategy,
                    *share,
                    *score,
                    sources@[k].managed,
                    #[trigger] keys@[k],
                ),
        decreases n - i,
    {
        keys.push(merge_key(strategy, &sources[i].managed, share, score));
        i = i + 1;
    }
    let order: Vec<usize> = sort::stable_order(&keys);
    let ghost places = sort::order_of(keys@);
    proof {
        sort::lemma_order_of(keys@);
        assert(are_merge_keys(strategy, *share, *score, sources@, keys@));
    }
    let mut r: Vec<&'a MergeSource> = Vec::new();
    let mut k: usize = 0;
    while k < n
        invariant
            n == sources@.len(),
            order@.len() == n,
            k <= n,
            forall|j: int| 0 <= j < n ==> (#[trigger] order@[j]) < n,
            r@.len() == k,
            forall|j: int| 0 <= j < k ==> #[trigger] r@[j] == sources@[order@[j] as int],
        decreases n - k,
    {
        r.push(sources[order[k]]);
        k = k + 1;
    }
    assert(r@ =~= ordered_by(sources@, keys@));
    r
}

/// How many deleted documents each segment has.
spec fn deleted_counts(sources: Seq<&MergeSource>) -> Seq<nat> {
    sources.map_values(|s: &MergeSource| deletions_of(s.reader).len())
}

proof fn lemma_total_is_sum(sources: Seq<&MergeSource>, n: int)
    requires
        0 <= n <= sources.len(),
    ensures
        total_deleted(sources, n) == sort::sum_of(deleted_counts(sources).take(n)),
    decreases n,
{
    if n > 0 {
        lemma_total_is_sum(sources, n - 1);
        assert(deleted_counts(sources).take(n).drop_last() =~= deleted_counts(sources).take(n - 1));
    }
}

/// The number of deleted documents does not depend on the order of the segments.
pub proof fn lemma_total_in_any_order(sources: Seq<&MergeSource>, keys: Seq<u64>)
    requires
        keys.len() == sources.len() <= usize::MAX,
    ensures
        ordered_by(sources, keys).len() == sources.len(),
        total_deleted(ordered_by(sources, keys), sources.len() as int) == total_deleted(
            sources,
            sources.len() as int,
        ),
{
    let n = sources.len() as int;
    let order = sort::order_of(keys);
    let counts = deleted_counts(sources);
    let ordered = ordered_by(sources, keys);
    sort::lemma_order_of(keys);
    sort::lemma_sum_permuted(counts, order);
    lemma_total_is_sum(sources, n);
    lemma_total_is_sum(ordered, n);
    assert(counts.take(n) =~= counts);
    assert(deleted_counts(ordered).take(n) =~= order.map_values(|p: usize| counts[p as int])) by {
        assert forall|i: int| 0 <= i < n implies deleted_counts(ordered)[i] == counts[order[i] as int] by {
            assert(order[i] < keys.len());
        }
    }
}

/// Whether a segment is one of these.
pub open spec fn is_among(sources: Seq<&MergeSource>, source: &MergeSource) -> bool {
    exists|j: int| 0 <= j < sources.len() && source == #[trigger] sources[j]
}

/// An order has only the segments that were ordered.
pub proof fn lemma_ordered_from(sources: Seq<&MergeSource>, keys: Seq<u64>)
    requires
        keys.len() == sources.len() <= usize::MAX,
    ensures
        forall|k: int|
            0 <= k < ordered_by(sources, keys).len() ==> is_among(
                sources,
                #[trigger] ordered_by(sources, keys)[k],
            ),
{
    sort::lemma_order_of(keys);
    let order = sort::order_of(keys);
    let ordered = ordered_by(sources, keys);
    assert forall|k: int| 0 <= k < ordered.len() implies is_among(sources, #[trigger] ordered[k]) by {
        assert(order[k] < keys.len());
        assert(ordered[k] == sources[order[k] as int]);
    }
}

/// The segments that are asked for are among the segments.
pub proof fn lemma_asked_from(sources: Seq<&MergeSource>, names: Seq<String>)
    requires
        sources.len() <= usize::MAX,
    ensures
        forall|k: int|
            0 <= k < asked_sources(sources, names).len() ==> is_among(
                sources,
                #[trigger] asked_sources(sources, names)[k],
            ),
{
    let n = sources.len() as int;
    lemma_asked_places(sources, names, n);
    let places = asked_places(sources, names, n);
    let asked = asked_sources(sources, names);
    assert forall|k: int| 0 <= k < asked.len() implies is_among(sources, #[trigger] asked[k]) by {
        assert(places[k] < n);
        assert(asked[k] == sources[places[k] as int]);
    }
}

proof fn lemma_asked_places(sources: Seq<&MergeSource>, names: Seq<String>, n: int)
    requires
        0 <= n <= sources.len() <= usize::MAX,
    ensures
        forall|k: int|
            0 <= k < asked_places(sources, names, n).len() ==> (#[trigger] asked_places(
                sources,
                names,
                n,
            )[k]) < n,
    decreases n,
{
    if n > 0 {
        lemma_asked_places(sources, names, n - 1);
        let before = asked_places(sources, names, n - 1);
        let places = asked_places(sources, names, n);
        assert forall|k: int| 0 <= k < places.len() implies (#[trigger] places[k]) < n by {
            if k < before.len() {
                assert(places[k] == before[k]);
            }
        }
    }
}

} // verus!
