//! Which segments a merge takes, and in which order.

use vstd::prelude::*;

use crate::analyzed::AnalyzedDocument;
use crate::data;
use crate::error::LaurusError;
use crate::floats;
use crate::merge_engine;
use crate::merge_engine::{MergeEngine, MergeResult, PendingMerge};
use crate::merging;
use crate::merging::MergeSource;
use crate::reader_laws;
use crate::search_laws;
use crate::segment::{ManagedSegmentInfo, MergeStrategy, SegmentInfo};
use crate::sort;

verus! {

// ---------------------------------------------------------------------------
// The segments that are asked for
// ---------------------------------------------------------------------------

/// Whether a segment has one of these ids.
pub open spec fn has_id_among(names: Seq<String>, source: &MergeSource) -> bool {
    exists|k: int| 0 <= k < names.len() && #[trigger] names[k]@
        == source.managed.segment_info.segment_id@
}

proof fn lemma_asked(sources: Seq<&MergeSource>, names: Seq<String>, n: int)
    requires
        0 <= n <= sources.len() <= usize::MAX,
    ensures
        merging::asked_places(sources, names, n).map_values(|p: usize| sources[p as int])
            == sources.take(n).filter(|s: &MergeSource| has_id_among(names, s)),
    decreases n,
{
    reveal(Seq::filter);
    let get = |p: usize| sources[p as int];
    let among = |s: &MergeSource| has_id_among(names, s);
    if n > 0 {
        lemma_asked(sources, names, n - 1);
        let before = merging::asked_places(sources, names, n - 1);
        assert(sources.take(n).drop_last() =~= sources.take(n - 1));
        assert(sources.take(n).last() == sources[n - 1]);
        assert(merging::is_asked(names, *sources[n - 1]) == among(sources[n - 1]));
        if among(sources[n - 1]) {
            assert(before.push((n - 1) as usize).map_values(get) =~= before.map_values(get).push(
                sources[n - 1],
            ));
        }
    } else {
        assert(merging::asked_places(sources, names, n).map_values(get) =~= sources.take(n).filter(
            among,
        ));
    }
}

/// The segments that are asked for are those that have one of the ids, in the order in
/// which they stand.
pub proof fn lemma_asked_sources(sources: Seq<&MergeSource>, names: Seq<String>)
    requires
        sources.len() <= usize::MAX,
    ensures
        merging::asked_sources(sources, names) == sources.filter(
            |s: &MergeSource| has_id_among(names, s),
        ),
{
    lemma_asked(sources, names, sources.len() as int);
    assert(sources.take(sources.len() as int) =~= sources);
}

// ---------------------------------------------------------------------------
// The order
// ---------------------------------------------------------------------------

/// Whether `ordered` is `sources` in another order, `places` saying where each stood.
pub open spec fn is_rearranged(
    sources: Seq<&MergeSource>,
    ordered: Seq<&MergeSource>,
    places: Seq<usize>,
) -> bool {
    &&& ordered.len() == sources.len()
    &&& places.len() == sources.len()
    &&& places.no_duplicates()
    &&& forall|i: int|
        0 <= i < places.len() ==> (#[trigger] places[i]) < sources.len() && ordered[i]
            == sources[places[i] as int]
}

/// Whether what `give` says of one segment is at least what it says of another, on the
/// number line.
pub open spec fn gives_no_less<G: Fn(&ManagedSegmentInfo) -> u64>(
    give: G,
    a: ManagedSegmentInfo,
    b: ManagedSegmentInfo,
) -> bool {
    exists|x: u64, y: u64|
        {
            &&& #[trigger] call_ensures(give, (&a,), x)
            &&& #[trigger] call_ensures(give, (&b,), y)
            &&& floats::is_nan(x) || floats::is_nan(y) || search_laws::number(x)
                >= search_laws::number(y)
        }
}

/// Whether a segment may stand before another: the smaller before the larger, the older
/// before the newer, the one with the greater share of deletions before the one with the
/// lesser, or the one of the greater score before the one of the lesser.
pub open spec fn may_precede<
    S: Fn(&ManagedSegmentInfo) -> u64,
    Q: Fn(&ManagedSegmentInfo) -> u64,
>(
    strategy: MergeStrategy,
    share: S,
    score: Q,
    a: ManagedSegmentInfo,
    b: ManagedSegmentInfo,
) -> bool {
    match strategy {
        MergeStrategy::SizeBased => a.size_bytes <= b.size_bytes,
        MergeStrategy::TimeBased => a.created_at <= b.created_at,
        MergeStrategy::DeletionBased => gives_no_less(share, a, b),
        MergeStrategy::Balanced => gives_no_less(score, a, b),
    }
}

proof fn lemma_greater_first(x: u64, y: u64)
    requires
        merging::greatest_first(x) <= merging::greatest_first(y),
        !floats::is_nan(x),
        !floats::is_nan(y),
    ensures
        search_laws::number(x) >= search_laws::number(y),
{
    floats::lemma_sortable_order(y, x);
    floats::lemma_total_order_is_numeric(y, x);
    search_laws::lemma_rank_is_order(x, y);
}

/// A merge takes the segments in the order of its strategy: all of them, each once, no
/// segment before one that must precede it; and segments of the same size or age in the
/// order in which they stood.
pub proof fn lemma_order_of_merge<
    S: Fn(&ManagedSegmentInfo) -> u64,
    Q: Fn(&ManagedSegmentInfo) -> u64,
>(
    strategy: MergeStrategy,
    share: S,
    score: Q,
    sources: Seq<&MergeSource>,
    ordered: Seq<&MergeSource>,
) -> (places: Seq<usize>)
    requires
        sources.len() <= usize::MAX,
        merging::is_merge_order(strategy, share, score, sources, ordered),
    ensures
        is_rearranged(sources, ordered, places),
        forall|i: int, j: int|
            0 <= i < j < ordered.len() ==> may_precede(
                strategy,
                share,
                score,
                (#[trigger] ordered[i]).managed,
                (#[trigger] ordered[j]).managed,
            ),
        strategy is SizeBased ==> forall|i: int, j: int|
            0 <= i < j < ordered.len() && (#[trigger] ordered[i]).managed.size_bytes == (
            #[trigger] ordered[j]).managed.size_bytes ==> places[i] < places[j],
        strategy is TimeBased ==> forall|i: int, j: int|
            0 <= i < j < ordered.len() && (#[trigger] ordered[i]).managed.created_at == (
            #[trigger] ordered[j]).managed.created_at ==> places[i] < places[j],
{
    let keys = choose|keys: Seq<u64>| #[trigger]
        merging::are_merge_keys(strategy, share, score, sources, keys) && ordered
            == merging::ordered_by(sources, keys);
    let places = sort::order_of(keys);
    sort::lemma_order_of(keys);
    assert forall|i: int| 0 <= i < places.len() implies (#[trigger] places[i]) < sources.len()
        && ordered[i] == sources[places[i] as int] by {}
    assert forall|i: int, j: int| 0 <= i < j < ordered.len() implies may_precede(
        strategy,
        share,
        score,
        (#[trigger] ordered[i]).managed,
        (#[trigger] ordered[j]).managed,
    ) && sort::key_before(keys, places[i] as int, places[j] as int) by {
        let (p, q) = (places[i] as int, places[j] as int);
        assert(sort::key_before(keys, p, q));
        let (a, b) = (sources[p].managed, sources[q].managed);
        assert(merging::is_merge_key(strategy, share, score, a, keys[p]));
        assert(merging::is_merge_key(strategy, share, score, b, keys[q]));
        match strategy {
            MergeStrategy::DeletionBased => {
                let x = choose|x: u64| #[trigger]
                    call_ensures(share, (&a,), x) && keys[p] == merging::greatest_first(x);
                let y = choose|y: u64| #[trigger]
                    call_ensures(share, (&b,), y) && keys[q] == merging::greatest_first(y);
                if !floats::is_nan(x) && !floats::is_nan(y) {
                    lemma_greater_first(x, y);
                }
                assert(gives_no_less(share, a, b));
            },
            MergeStrategy::Balanced => {
                let x = choose|x: u64| #[trigger]
                    call_ensures(score, (&a,), x) && keys[p] == merging::greatest_first(x);
                let y = choose|y: u64| #[trigger]
                    call_ensures(score, (&b,), y) && keys[q] == merging::greatest_first(y);
                if !floats::is_nan(x) && !floats::is_nan(y) {
                    lemma_greater_first(x, y);
                }
                assert(gives_no_less(score, a, b));
            },
            _ => {},
        }
    }
    assert forall|i: int, j: int| 0 <= i < j < ordered.len() implies sort::key_before(
        keys,
        (#[trigger] places[i]) as int,
        (#[trigger] places[j]) as int,
    ) by {}
    assert forall|i: int| 0 <= i < ordered.len() implies merging::is_merge_key(
        strategy,
        share,
        score,
        (#[trigger] ordered[i]).managed,
        keys[places[i] as int],
    ) by {
        assert(places[i] < keys.len());
    }
    places
}

// ---------------------------------------------------------------------------
// Ranges of ids
// ---------------------------------------------------------------------------

/// The ranges of ids of the segments that have documents.
pub open spec fn spans(sources: Seq<&MergeSource>) -> Seq<(u64, u64)> {
    sources.filter(|s: &MergeSource| s.managed.segment_info.doc_count > 0).map_values(
        |s: &MergeSource|
            (s.managed.segment_info.min_doc_id, s.managed.segment_info.max_doc_id),
    )
}

proof fn lemma_spans(sources: Seq<&MergeSource>, n: int)
    requires
        0 <= n <= sources.len(),
    ensures
        merging::ranges_of(sources, n) == spans(sources.take(n)),
    decreases n,
{
    reveal(Seq::filter);
    let has = |s: &MergeSource| s.managed.segment_info.doc_count > 0;
    let span = |s: &MergeSource|
        (s.managed.segment_info.min_doc_id, s.managed.segment_info.max_doc_id);
    if n > 0 {
        lemma_spans(sources, n - 1);
        assert(sources.take(n).drop_last() =~= sources.take(n - 1));
        assert(sources.take(n).last() == sources[n - 1]);
        let before = sources.take(n - 1).filter(has);
        if has(sources[n - 1]) {
            assert(before.push(sources[n - 1]).map_values(span) =~= before.map_values(span).push(
                span(sources[n - 1]),
            ));
        }
    } else {
        assert(spans(sources.take(n)) =~= Seq::empty());
    }
}

/// Whether two of some ranges both hold an id.
pub open spec fn both_hold(ranges: Seq<(u64, u64)>, i: int, j: int, id: u64) -> bool {
    &&& 0 <= i < j < ranges.len()
    &&& ranges[i].0 <= id <= ranges[i].1
    &&& ranges[j].0 <= id <= ranges[j].1
}

/// The ranges of ids of segments overlap exactly where two of them hold an id both; segments
/// without documents do not count.
pub proof fn lemma_overlap(sources: Vec<&MergeSource>, r: bool)
    requires
        call_ensures(merging::doc_id_ranges_overlap, (&sources,), r),
        forall|i: int|
            0 <= i < sources@.len() && (
            #[trigger] sources@[i]).managed.segment_info.doc_count > 0
                ==> sources@[i].managed.segment_info.min_doc_id
                <= sources@[i].managed.segment_info.max_doc_id,
    ensures
        r <==> exists|i: int, j: int, id: u64| #[trigger] both_hold(spans(sources@), i, j, id),
{
    let all = sources@;
    let ranges = spans(all);
    lemma_spans(all, all.len() as int);
    assert(all.take(all.len() as int) =~= all);
    assert forall|j: int| 0 <= j < ranges.len() implies (#[trigger] ranges[j]).0
        <= ranges[j].1 by {
        lemma_range_is_valid(all, j);
    }
    merging::lemma_overlap_is_common_id(ranges);
    if r {
        let (i, j) = choose|i: int, j: int|
            0 <= i < j < ranges.len() && merging::in_common(
                #[trigger] ranges[i],
                #[trigger] ranges[j],
            );
        let id = if ranges[i].0 < ranges[j].0 {
            ranges[j].0
        } else {
            ranges[i].0
        };
        assert(both_hold(ranges, i, j, id));
    }
    if exists|i: int, j: int, id: u64| #[trigger] both_hold(ranges, i, j, id) {
        let (i, j, id) = choose|i: int, j: int, id: u64| #[trigger] both_hold(ranges, i, j, id);
        assert(merging::in_common(ranges[i], ranges[j]));
    }
}

proof fn lemma_range_is_valid(sources: Seq<&MergeSource>, j: int)
    requires
        0 <= j < spans(sources).len(),
        forall|i: int|
            0 <= i < sources.len() && (#[trigger] sources[i]).managed.segment_info.doc_count > 0
                ==> sources[i].managed.segment_info.min_doc_id
                <= sources[i].managed.segment_info.max_doc_id,
    ensures
        spans(sources)[j].0 <= spans(sources)[j].1,
{
    let has = |s: &MergeSource| s.managed.segment_info.doc_count > 0;
    let kept = sources.filter(has);
    sources.lemma_filter_pred(has, j);
    assert(kept.contains(kept[j]));
    sources.lemma_filter_contains_rev(has, kept[j]);
    let i = choose|i: int| 0 <= i < sources.len() && sources[i] == kept[j];
    assert(sources[i].managed.segment_info.doc_count > 0);
}

// ---------------------------------------------------------------------------
// Statistics
// ---------------------------------------------------------------------------

proof fn lemma_sizes(sources: Seq<&MergeSource>, n: int)
    requires
        0 <= n <= sources.len(),
    ensures
        merge_engine::total_size(sources, n) == reader_laws::sum(
            sources.take(n).map_values(|s: &MergeSource| s.managed.size_bytes as nat),
        ),
        merging::total_deleted(sources, n) == reader_laws::sum(
            sources.take(n).map_values(|s: &MergeSource| deleted_of(s)),
        ),
    decreases n,
{
    let size = |s: &MergeSource| s.managed.size_bytes as nat;
    let gone = |s: &MergeSource| deleted_of(s);
    if n > 0 {
        lemma_sizes(sources, n - 1);
        assert(sources.take(n).map_values(size).drop_last() =~= sources.take(n - 1).map_values(
            size,
        ));
        assert(sources.take(n).map_values(gone).drop_last() =~= sources.take(n - 1).map_values(
            gone,
        ));
    }
}

/// How many documents a segment records as deleted; none where the record cannot be read.
pub open spec fn deleted_of(s: &MergeSource) -> nat {
    match s.reader.gone() {
        Ok(g) => g.len(),
        Err(_) => 0,
    }
}

/// What is said of a merge: how many segments there were, how many documents the merged
/// segment has, and how many deleted documents and bytes the segments had together.
pub proof fn lemma_statistics_of_merge(
    sources: Seq<&MergeSource>,
    docs: Seq<(u64, AnalyzedDocument)>,
)
    requires
        sources.len() <= usize::MAX,
        docs.len() <= u64::MAX,
        merging::total_deleted(sources, sources.len() as int) <= u64::MAX,
    ensures
        merge_engine::gathering_stats(sources, docs).segments_merged == sources.len(),
        merge_engine::gathering_stats(sources, docs).docs_processed == docs.len(),
        merge_engine::gathering_stats(sources, docs).postings_merged == docs.len(),
        merge_engine::gathering_stats(sources, docs).deleted_docs_removed == reader_laws::sum(
            sources.map_values(|s: &MergeSource| deleted_of(s)),
        ),
        merge_engine::total_size(sources, sources.len() as int) == reader_laws::sum(
            sources.map_values(|s: &MergeSource| s.managed.size_bytes as nat),
        ),
{
    lemma_sizes(sources, sources.len() as int);
    assert(sources.take(sources.len() as int) =~= sources);
}

proof fn lemma_files(files: Seq<(String, u64)>, n: int)
    requires
        0 <= n <= files.len(),
    ensures
        merge_engine::files_size(files, n) == reader_laws::sum(
            files.take(n).map_values(|f: (String, u64)| f.1 as nat),
        ),
    decreases n,
{
    let size = |f: (String, u64)| f.1 as nat;
    if n > 0 {
        lemma_files(files, n - 1);
        assert(files.take(n).map_values(size).drop_last() =~= files.take(n - 1).map_values(size));
    }
}

/// Whether a segment is kept in these files: it has their names, in their order, and is as
/// large as they are together.
pub open spec fn is_kept_in(
    segment: ManagedSegmentInfo,
    paths: Seq<String>,
    files: Seq<(String, u64)>,
) -> bool {
    &&& segment.size_bytes == reader_laws::sum(files.map_values(|f: (String, u64)| f.1 as nat))
    &&& paths.len() == files.len()
    &&& segment.file_paths@.len() == files.len()
    &&& forall|i: int|
        0 <= i < files.len() ==> (#[trigger] paths[i])@ == files[i].0@ && segment.file_paths@[i]@
            == files[i].0@
}

proof fn lemma_kept_in(
    segment: ManagedSegmentInfo,
    paths: Seq<String>,
    info: SegmentInfo,
    files: Seq<(String, u64)>,
    now: u64,
)
    requires
        merge_engine::is_written(segment, info, files, now),
        data::texts(paths) == merge_engine::paths_of(files),
    ensures
        is_kept_in(segment, paths, files),
{
    lemma_files(files, files.len() as int);
    assert(files.take(files.len() as int) =~= files);
    let names = merge_engine::paths_of(files);
    let own = segment.file_paths@;
    assert(paths.len() == data::texts(paths).len());
    assert(own.len() == data::texts(own).len());
    assert forall|i: int| 0 <= i < files.len() implies (#[trigger] paths[i])@ == files[i].0@
        && own[i]@ == files[i].0@ by {
        assert(data::texts(paths)[i] == names[i]);
        assert(data::texts(own)[i] == names[i]);
    }
}

/// A merge that is not to be verified completes; one that is completes where as many
/// documents are found as were merged, and fails else. The new segment is kept in the files
/// that were written, has no deletions, and was made now; what was counted before stays
/// counted.
pub proof fn lemma_completed_merge<F: Fn(u64, u64) -> u64>(
    engine: MergeEngine,
    merged: PendingMerge,
    files: Vec<(String, u64)>,
    now: u64,
    start: u64,
    end: u64,
    found: Result<u64, LaurusError>,
    ratio: F,
    r: Result<MergeResult, LaurusError>,
)
    requires
        merge_engine::files_size(files@, files@.len() as int) <= u64::MAX,
        call_ensures(
            MergeEngine::complete_merge::<F>,
            (&engine, merged, &files, now, start, end, found, &ratio),
            r,
        ),
    ensures
        r is Ok <==> (engine.settings().verify_after_merge ==> found is Ok && found->Ok_0
            == merged.segment_info.doc_count),
        r is Ok ==> {
            let new = r->Ok_0.new_segment;
            let stats = r->Ok_0.stats;
            &&& is_kept_in(new, r->Ok_0.file_paths@, files@)
            &&& new.segment_info == merged.segment_info
            &&& new.deleted_count == 0
            &&& new.created_at == now && new.last_modified == now
            &&& !new.is_merging
            &&& stats.size_after == new.size_bytes
            &&& start <= end ==> start + stats.merge_time_ms == end
            &&& end < start ==> stats.merge_time_ms == 0
            &&& stats.size_before == merged.stats.size_before
            &&& stats.segments_merged == merged.stats.segments_merged
            &&& stats.docs_processed == merged.stats.docs_processed
            &&& stats.deleted_docs_removed == merged.stats.deleted_docs_removed
            &&& stats.postings_merged == merged.stats.postings_merged
            &&& stats.shard_id == merged.stats.shard_id
        },
{
    if r is Ok {
        let new = r->Ok_0.new_segment;
        lemma_kept_in(new, r->Ok_0.file_paths@, merged.segment_info, files@, now);
    }
}

/// A segment that was rebuilt is kept in the files that were written, has no deletions, and
/// was made now.
pub proof fn lemma_completed_rebuild(
    engine: MergeEngine,
    rebuilt: PendingMerge,
    files: Vec<(String, u64)>,
    now: u64,
    r: MergeResult,
)
    requires
        call_ensures(MergeEngine::complete_rebuild, (&engine, rebuilt, &files, now), r),
    ensures
        is_kept_in(r.new_segment, r.file_paths@, files@),
        r.new_segment.segment_info == rebuilt.segment_info,
        r.new_segment.deleted_count == 0,
        r.new_segment.created_at == now,
        r.new_segment.last_modified == now,
        r.stats == rebuilt.stats,
{
    lemma_kept_in(r.new_segment, r.file_paths@, rebuilt.segment_info, files@, now);
}

} // verus!
