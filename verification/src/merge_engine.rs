//! Merging segments.

use vstd::prelude::*;

use crate::analyzed::{AnalyzedDocument, AnalyzedTerm};
use crate::data;
use crate::data::DataValue;
use crate::error::LaurusError;
use crate::merging;
use crate::merging::MergeSource;
use crate::names;
use crate::names::FieldMap;
use crate::numbers;
use crate::posting::DecodedPostingList;
use crate::replay;
use crate::replay::MergeBuffer;
use crate::segment::{ManagedSegmentInfo, MergeCandidate, SegmentInfo, SegmentView};
use crate::segment_reader;
use crate::segment_reader::{PostingFormat, SegmentReader};
use crate::sort;
use crate::treemap;
use crate::type_coercion::FLOAT_ONE;

verus! {

// ---------------------------------------------------------------------------
// Settings and results
// ---------------------------------------------------------------------------

/// How segments are merged.
#[derive(Debug, Clone, PartialEq)]
pub struct MergeConfig {
    /// Whether the merged segment is written into one container file.
    pub use_compound: bool,
    pub max_memory_mb: u64,
    pub batch_size: usize,
    pub remove_deleted_docs: bool,
    pub sort_by_doc_id: bool,
    /// Whether the merged segment is counted after it was written.
    pub verify_after_merge: bool,
    /// Which fields have a column, where the schema says it.
    pub field_doc_values: FieldMap<bool>,
    /// Whether other fields have a column, where no segment shows it.
    pub default_doc_values: bool,
}

impl MergeConfig {
    /// The names of the fields ascend.
    pub open spec fn wf(&self) -> bool {
        self.field_doc_values.wf()
    }
}

impl Default for MergeConfig {
    fn default() -> (r: MergeConfig)
        ensures
            r.wf(),
            r.use_compound,
            r.max_memory_mb == 256,
            r.batch_size == 10000,
            r.remove_deleted_docs,
            r.sort_by_doc_id,
            r.verify_after_merge,
            r.field_doc_values@ == Seq::<(Seq<char>, bool)>::empty(),
            r.default_doc_values,
    {
        MergeConfig {
            use_compound: true,
            max_memory_mb: 256,
            batch_size: 10000,
            remove_deleted_docs: true,
            sort_by_doc_id: true,
            verify_after_merge: true,
            field_doc_values: FieldMap::new(),
            default_doc_values: true,
        }
    }
}

/// What a merge did. The compression ratio is the pattern of a number.
#[derive(Debug, Clone, Copy, PartialEq, Eq, Structural)]
pub struct MergeStats {
    pub segments_merged: usize,
    pub docs_processed: u64,
    pub deleted_docs_removed: u64,
    pub size_before: u64,
    pub size_after: u64,
    pub merge_time_ms: u64,
    pub compression_ratio: u64,
    pub terms_merged: u64,
    pub postings_merged: u64,
    pub shard_id: u16,
}

/// Statistics of which nothing is known.
pub open spec fn no_stats() -> MergeStats {
    MergeStats {
        segments_merged: 0,
        docs_processed: 0,
        deleted_docs_removed: 0,
        size_before: 0,
        size_after: 0,
        merge_time_ms: 0,
        compression_ratio: 0,
        terms_merged: 0,
        postings_merged: 0,
        shard_id: 0,
    }
}

impl Default for MergeStats {
    fn default() -> (r: MergeStats)
        ensures
            r == no_stats(),
    {
        MergeStats {
            segments_merged: 0,
            docs_processed: 0,
            deleted_docs_removed: 0,
            size_before: 0,
            size_after: 0,
            merge_time_ms: 0,
            compression_ratio: 0,
            terms_merged: 0,
            postings_merged: 0,
            shard_id: 0,
        }
    }
}

/// A merged segment that was written.
#[derive(Debug, PartialEq)]
pub struct MergeResult {
    pub new_segment: ManagedSegmentInfo,
    pub stats: MergeStats,
    pub file_paths: Vec<String>,
}

// ---------------------------------------------------------------------------
// Merging
// ---------------------------------------------------------------------------

/// A merged segment that is to be written: what is known of it, and what its writer is
/// handed.
#[derive(Debug, PartialEq)]
pub struct PendingMerge {
    pub segment_info: SegmentInfo,
    pub buffer: MergeBuffer,
    pub stats: MergeStats,
}

/// Whether this is the least of these ids, or zero where there is none.
pub open spec fn is_least(ids: Seq<u64>, v: u64) -> bool {
    if ids.len() == 0 {
        v == 0
    } else {
        ids.contains(v) && forall|i: int| 0 <= i < ids.len() ==> v <= #[trigger] ids[i]
    }
}

/// Whether this is the greatest of these ids, or zero where there is none.
pub open spec fn is_greatest(ids: Seq<u64>, v: u64) -> bool {
    if ids.len() == 0 {
        v == 0
    } else {
        ids.contains(v) && forall|i: int| 0 <= i < ids.len() ==> #[trigger] ids[i] <= v
    }
}

/// Whether this describes a new segment of these documents.
pub open spec fn describes(
    info: SegmentInfo,
    segment_id: Seq<char>,
    shard_id: u16,
    docs: Seq<(u64, AnalyzedDocument)>,
) -> bool {
    &&& info@ == (SegmentView {
        segment_id,
        doc_count: docs.len() as u64,
        min_doc_id: info.min_doc_id,
        max_doc_id: info.max_doc_id,
        generation: 0,
        has_deletions: false,
        deleted_count: Some(0),
        shard_id,
    })
    &&& is_least(merging::ids_of(docs), info.min_doc_id)
    &&& is_greatest(merging::ids_of(docs), info.max_doc_id)
}

/// The shard of the first segment.
pub open spec fn shard_of(sources: Seq<&MergeSource>) -> u16 {
    if sources.len() > 0 {
        sources[0].managed.segment_info.shard_id
    } else {
        0
    }
}

/// Whether this is what the merge of segments in this order gives to be written.
pub open spec fn is_merge_of<
    D: Fn(&SegmentInfo, u64, PostingFormat) -> Result<DecodedPostingList, LaurusError>,
    N: Fn(&str, &DataValue) -> Result<Vec<AnalyzedTerm>, LaurusError>,
    C: Fn(&DataValue) -> bool,
>(
    decode: D,
    analyze: N,
    candidate: C,
    config: MergeConfig,
    sources: Seq<&MergeSource>,
    segment_id: Seq<char>,
    p: PendingMerge,
) -> bool {
    &&& p.buffer.wf()
    &&& merging::all_replayable(sources)
    &&& merging::are_merged(decode, analyze, sources, p.buffer.documents@)
    &&& exists|bufs: Seq<MergeBuffer>| #[trigger]
        merging::merged_through(
            decode,
            analyze,
            candidate,
            sources,
            config.field_doc_values@,
            bufs,
            sources.len() as int,
        ) && bufs.last() == p.buffer
    &&& describes(p.segment_info, segment_id, shard_of(sources), p.buffer.documents@)
}

/// What is known of a merge of segments once their documents were gathered.
pub open spec fn gathering_stats(
    sources: Seq<&MergeSource>,
    docs: Seq<(u64, AnalyzedDocument)>,
) -> MergeStats {
    MergeStats {
        segments_merged: sources.len() as usize,
        docs_processed: docs.len() as u64,
        postings_merged: docs.len() as u64,
        deleted_docs_removed: merging::total_deleted(sources, sources.len() as int) as u64,
        shard_id: shard_of(sources),
        ..no_stats()
    }
}

/// The size of the first `n` segments.
pub open spec fn total_size(sources: Seq<&MergeSource>, n: int) -> nat
    decreases n,
{
    if n <= 0 {
        0
    } else {
        total_size(sources, n - 1) + sources[n - 1].managed.size_bytes as nat
    }
}

proof fn lemma_total_size_grows(sources: Seq<&MergeSource>, a: int, b: int)
    requires
        a <= b,
    ensures
        total_size(sources, a) <= total_size(sources, b),
    decreases b - a,
{
    if a < b {
        lemma_total_size_grows(sources, a, b - 1);
    }
}

/// The name of the segment that the merge of a generation gives.
pub open spec fn merged_id(generation: u64) -> Seq<char> {
    "merged_"@ + numbers::decimal(generation as nat)
}

/// The size of the first `n` files.
pub open spec fn files_size(files: Seq<(String, u64)>, n: int) -> nat
    decreases n,
{
    if n <= 0 {
        0
    } else {
        files_size(files, n - 1) + files[n - 1].1 as nat
    }
}

proof fn lemma_files_size_grows(files: Seq<(String, u64)>, a: int, b: int)
    requires
        a <= b,
    ensures
        files_size(files, a) <= files_size(files, b),
    decreases b - a,
{
    if a < b {
        lemma_files_size_grows(files, a, b - 1);
    }
}

/// The paths of files.
pub open spec fn paths_of(files: Seq<(String, u64)>) -> Seq<Seq<char>> {
    files.map_values(|f: (String, u64)| f.0@)
}

/// Whether this is a new segment that was written into these files.
pub open spec fn is_written(
    m: ManagedSegmentInfo,
    info: SegmentInfo,
    files: Seq<(String, u64)>,
    now: u64,
) -> bool {
    &&& m.segment_info == info
    &&& m.size_bytes == files_size(files, files.len() as int)
    &&& m.deleted_count == 0
    &&& m.created_at == now
    &&& m.last_modified == now
    &&& m.tier == 0
    &&& !m.is_merging
    &&& data::texts(m.file_paths@) == paths_of(files)
}

/// A new segment that was written into these files.
fn written(info: SegmentInfo, files: &Vec<(String, u64)>, now: u64) -> (r: (
    ManagedSegmentInfo,
    Vec<String>,
))
    requires
        files_size(files@, files@.len() as int) <= u64::MAX,
    ensures
        is_written(r.0, info, files@, now),
        data::texts(r.1@) == paths_of(files@),
{
    let n: usize = files.len();
    let mut size: u64 = 0;
    let mut paths: Vec<String> = Vec::new();
    let mut i: usize = 0;
    while i < n
        invariant
            n == files@.len(),
            i <= n,
            files_size(files@, n as int) <= u64::MAX,
            size == files_size(files@, i as int),
            paths@.len() == i,
            forall|k: int| 0 <= k < i ==> #[trigger] paths@[k]@ == files@[k].0@,
        decreases n - i,
    {
        proof {
            lemma_files_size_grows(files@, i + 1, n as int);
        }
        size = size + files[i].1;
        paths.push(files[i].0.clone());
        i = i + 1;
    }
    assert(data::texts(paths@) =~= paths_of(files@));
    let copies: Vec<String> = data::copy_strings(&paths);
    let mut managed: ManagedSegmentInfo = ManagedSegmentInfo::created_at(info, now);
    managed.size_bytes = size;
    managed.file_paths = copies;
    (managed, paths)
}

/// Whether these are the statistics of a merge that was completed.
pub open spec fn completed_stats<F: Fn(u64, u64) -> u64>(
    ratio: F,
    before: MergeStats,
    after: MergeStats,
    size: u64,
    millis: u64,
) -> bool {
    &&& after == (MergeStats {
        size_after: size,
        merge_time_ms: millis,
        compression_ratio: after.compression_ratio,
        ..before
    })
    &&& if before.size_before > 0 {
        call_ensures(ratio, (size, before.size_before), after.compression_ratio)
    } else {
        after.compression_ratio == FLOAT_ONE
    }
}

// ---------------------------------------------------------------------------
// Rebuilding a field
// ---------------------------------------------------------------------------

/// Which fields keep positions before a segment is rebuilt: what the segment before it
/// left behind, and for the first one what was given.
pub open spec fn positions_before(
    list: Seq<PendingMerge>,
    given: Seq<(Seq<char>, bool)>,
    i: int,
) -> Seq<(Seq<char>, bool)> {
    if i <= 0 {
        given
    } else {
        list[i - 1].buffer.term_positions@
    }
}

/// Which fields have a column before a segment is rebuilt.
pub open spec fn columns_before(
    list: Seq<PendingMerge>,
    given: Seq<(Seq<char>, bool)>,
    i: int,
) -> Seq<(Seq<char>, bool)> {
    if i <= 0 {
        given
    } else {
        list[i - 1].buffer.doc_values@
    }
}

/// Whether this is what the rebuilding of a segment gives to be written.
pub open spec fn is_rebuilt_segment<
    D: Fn(&SegmentInfo, u64, PostingFormat) -> Result<DecodedPostingList, LaurusError>,
    N: Fn(&str, &DataValue) -> Result<Vec<AnalyzedTerm>, LaurusError>,
    C: Fn(&DataValue) -> bool,
    R: Fn(&str, &DataValue) -> Result<(Vec<AnalyzedTerm>, Vec<Vec<u64>>), LaurusError>,
>(
    decode: D,
    analyze: N,
    candidate: C,
    rederive: Option<&R>,
    source: MergeSource,
    field: Seq<char>,
    segment_id: Seq<char>,
    positions: Seq<(Seq<char>, bool)>,
    columns: Seq<(Seq<char>, bool)>,
    p: PendingMerge,
) -> bool {
    let docs = p.buffer.documents@;
    let shard_id = source.managed.segment_info.shard_id;
    &&& p.buffer.wf()
    &&& replay::is_rebuilding(
        decode,
        analyze,
        candidate,
        rederive,
        source.reader,
        merging::deletions_of(source.reader),
        field,
        positions,
        p.buffer.term_positions@,
        columns,
        p.buffer.doc_values@,
        docs,
    )
    &&& describes(p.segment_info, segment_id, shard_id, docs)
    &&& p.stats == (MergeStats {
        segments_merged: 1,
        docs_processed: docs.len() as u64,
        postings_merged: docs.len() as u64,
        shard_id,
        ..no_stats()
    })
}

/// Whether the rebuilding of a field fails for this reason: a segment cannot be put
/// together with the field analyzed anew, while those before it can.
pub open spec fn rebuild_fails<
    D: Fn(&SegmentInfo, u64, PostingFormat) -> Result<DecodedPostingList, LaurusError>,
    N: Fn(&str, &DataValue) -> Result<Vec<AnalyzedTerm>, LaurusError>,
    R: Fn(&str, &DataValue) -> Result<(Vec<AnalyzedTerm>, Vec<Vec<u64>>), LaurusError>,
>(
    decode: D,
    analyze: N,
    rederive: Option<&R>,
    sources: Seq<&MergeSource>,
    field: Seq<char>,
    e: LaurusError,
) -> bool {
    exists|i: int|
        0 <= i < sources.len() && rebuildable_before(decode, analyze, rederive, sources, field, i)
            && replay::override_fails(
            decode,
            analyze,
            rederive,
            (#[trigger] sources[i]).reader,
            merging::deletions_of(sources[i].reader),
            field,
            e,
        )
}

/// Whether the first `n` segments can be put together with a field analyzed anew.
pub open spec fn rebuildable_before<
    D: Fn(&SegmentInfo, u64, PostingFormat) -> Result<DecodedPostingList, LaurusError>,
    N: Fn(&str, &DataValue) -> Result<Vec<AnalyzedTerm>, LaurusError>,
    R: Fn(&str, &DataValue) -> Result<(Vec<AnalyzedTerm>, Vec<Vec<u64>>), LaurusError>,
>(
    decode: D,
    analyze: N,
    rederive: Option<&R>,
    sources: Seq<&MergeSource>,
    field: Seq<char>,
    n: int,
) -> bool {
    forall|k: int|
        0 <= k < n ==> replay::can_be_overridden(
            decode,
            analyze,
            rederive,
            (#[trigger] sources[k]).reader,
            merging::deletions_of(sources[k].reader),
            field,
        )
}

/// Merges segments.
#[derive(Debug)]
pub struct MergeEngine {
    config: MergeConfig,
}

impl MergeEngine {
    /// The settings.
    pub closed spec fn settings(&self) -> MergeConfig {
        self.config
    }

    /// The names of the fields in the settings ascend.
    pub open spec fn wf(&self) -> bool {
        self.settings().wf()
    }

    /// An engine with these settings.
    pub fn new(config: MergeConfig) -> (r: MergeEngine)
        ensures
            r.settings() == config,
    {
        MergeEngine { config }
    }

    /// The settings.
    pub fn get_config(&self) -> (r: &MergeConfig)
        ensures
            *r == self.settings(),
    {
        &self.config
    }

    /// Merges segments in this order.
    fn perform_merge<
        D: Fn(&SegmentInfo, u64, PostingFormat) -> Result<DecodedPostingList, LaurusError>,
        N: Fn(&str, &DataValue) -> Result<Vec<AnalyzedTerm>, LaurusError>,
        C: Fn(&DataValue) -> bool,
    >(
        &self,
        sources: &Vec<&MergeSource>,
        new_segment_id: &str,
        decode: &D,
        analyze: &N,
        candidate: &C,
    ) -> (r: Result<PendingMerge, LaurusError>)
        requires
            self.wf(),
            forall|i: int| 0 <= i < sources@.len() ==> (#[trigger] sources@[i]).reader.wf(),
            forall|s: &SegmentInfo, o: u64, f: PostingFormat| call_requires(*decode, (s, o, f)),
            segment_reader::decodes_well(*decode),
            forall|f: &str, v: &DataValue| call_requires(*analyze, (f, v)),
            forall|v: &DataValue| call_requires(*candidate, (v,)),
            merging::total_deleted(sources@, sources@.len() as int) <= u64::MAX,
        ensures
            match r {
                Ok(p) => is_merge_of(
                    *decode,
                    *analyze,
                    *candidate,
                    self.settings(),
                    sources@,
                    new_segment_id@,
                    p,
                ) && p.stats == gathering_stats(sources@, p.buffer.documents@),
                Err(e) => merging::merge_fails(*decode, *analyze, sources@, e),
            },
    {
        let shard_id: u16 = if sources.len() > 0 {
            sources[0].managed.segment_info.shard_id
        } else {
            0
        };
        let owned = match merging::resolve_owned_doc_ids(sources) {
            Ok(o) => o,
            Err(e) => return Err(e),
        };
        let columns: FieldMap<bool> = data::copy_map(&self.config.field_doc_values);
        let (buffer, emitted, removed) = match merging::gather(
            sources,
            &owned,
            columns,
            decode,
            analyze,
            candidate,
        ) {
            Ok(g) => g,
            Err(e) => return Err(e),
        };
        proof {
            let ids = merging::ids_of(buffer.documents@);
            ids.unique_seq_to_set();
            assert(ids.to_set().len() == buffer.documents@.len());
            assert(treemap::treemap_ids(emitted).len() == buffer.documents@.len());
            assert(ids.len() > 0 ==> ids.to_set().contains(ids[0]));
            assert forall|v: u64| #[trigger] treemap::treemap_ids(emitted).contains(v) <==> ids.contains(
                v,
            ) by {}
            assert forall|i: int| 0 <= i < ids.len() implies treemap::treemap_ids(emitted).contains(
                #[trigger] ids[i],
            ) by {
                assert(ids.contains(ids[i]));
            }
            assert(buffer.documents.len() == buffer.documents@.len());
        }
        let doc_count: u64 = treemap::treemap_len(&emitted);
        let min_doc_id: u64 = match treemap::treemap_min(&emitted) {
            Some(v) => v,
            None => 0,
        };
        let max_doc_id: u64 = match treemap::treemap_max(&emitted) {
            Some(v) => v,
            None => 0,
        };
        let segment_info = SegmentInfo {
            segment_id: new_segment_id.to_string(),
            doc_count,
            min_doc_id,
            max_doc_id,
            generation: 0,
            has_deletions: false,
            deleted_count: Some(0),
            shard_id,
        };
        let mut stats: MergeStats = MergeStats::default();
        stats.segments_merged = sources.len();
        stats.docs_processed = doc_count;
        stats.postings_merged = doc_count;
        stats.deleted_docs_removed = removed;
        stats.shard_id = shard_id;
        Ok(PendingMerge { segment_info, buffer, stats })
    }

    /// Merges the segments that a candidate names, up to the writing of the merged
    /// segment. `share` gives the share of deletions in a segment, and `score` the number
    /// by which segments are ordered when several factors count.
    #[verifier::rlimit(40)]
    pub fn merge_segments<
        'a,
        S: Fn(&ManagedSegmentInfo) -> u64,
        Q: Fn(&ManagedSegmentInfo) -> u64,
        D: Fn(&SegmentInfo, u64, PostingFormat) -> Result<DecodedPostingList, LaurusError>,
        N: Fn(&str, &DataValue) -> Result<Vec<AnalyzedTerm>, LaurusError>,
        C: Fn(&DataValue) -> bool,
    >(
        &self,
        request: &MergeCandidate,
        segments: &Vec<&'a MergeSource>,
        next_generation: u64,
        share: &S,
        score: &Q,
        decode: &D,
        analyze: &N,
        candidate: &C,
    ) -> (r: Result<PendingMerge, LaurusError>)
        requires
            self.wf(),
            forall|i: int| 0 <= i < segments@.len() ==> (#[trigger] segments@[i]).reader.wf(),
            forall|s: &ManagedSegmentInfo| call_requires(*share, (s,)),
            forall|s: &ManagedSegmentInfo| call_requires(*score, (s,)),
            forall|s: &SegmentInfo, o: u64, f: PostingFormat| call_requires(*decode, (s, o, f)),
            segment_reader::decodes_well(*decode),
            forall|f: &str, v: &DataValue| call_requires(*analyze, (f, v)),
            forall|v: &DataValue| call_requires(*candidate, (v,)),
            ({
                let asked = merging::asked_sources(segments@, request.segments@);
                total_size(asked, asked.len() as int) <= u64::MAX && merging::total_deleted(
                    asked,
                    asked.len() as int,
                ) <= u64::MAX
            }),
        ensures
            ({
                let asked = merging::asked_sources(segments@, request.segments@);
                if asked.len() == 0 {
                    r == Err::<PendingMerge, LaurusError>(LaurusError::NoSegments)
                } else {
                    match r {
                        Ok(p) => {
                            &&& exists|ordered: Seq<&MergeSource>| #[trigger]
                                merging::is_merge_order(
                                    request.strategy,
                                    *share,
                                    *score,
                                    asked,
                                    ordered,
                                ) && is_merge_of(
                                    *decode,
                                    *analyze,
                                    *candidate,
                                    self.settings(),
                                    ordered,
                                    merged_id(next_generation),
                                    p,
                                ) && p.stats == (MergeStats {
                                    size_before: total_size(asked, asked.len() as int) as u64,
                                    ..gathering_stats(ordered, p.buffer.documents@)
                                })
                            &&& p.stats.segments_merged == asked.len()
                            &&& p.stats.docs_processed == p.segment_info.doc_count
                            &&& p.stats.deleted_docs_removed == merging::total_deleted(
                                asked,
                                asked.len() as int,
                            )
                            &&& p.stats.shard_id == p.segment_info.shard_id
                        },
                        Err(e) => exists|ordered: Seq<&MergeSource>| #[trigger]
                            merging::is_merge_order(
                                request.strategy,
                                *share,
                                *score,
                                asked,
                                ordered,
                            ) && merging::merge_fails(*decode, *analyze, ordered, e),
                    }
                }
            }),
    {
        let chosen: Vec<&'a MergeSource> = merging::select(segments, &request.segments);
        let n: usize = chosen.len();
        if n == 0 {
            return Err(LaurusError::NoSegments);
        }
        let mut segment_id: String = "merged_".to_string();
        numbers::push_decimal(&mut segment_id, next_generation);
        let mut size: u64 = 0;
        let mut i: usize = 0;
        while i < n
            invariant
                n == chosen@.len(),
                i <= n,
                total_size(chosen@, n as int) <= u64::MAX,
                size == total_size(chosen@, i as int),
            decreases n - i,
        {
            proof {
                lemma_total_size_grows(chosen@, i + 1, n as int);
            }
            size = size + chosen[i].managed.size_bytes;
            i = i + 1;
        }
        let ordered: Vec<&'a MergeSource> = merging::arrange(
            request.strategy,
            &chosen,
            share,
            score,
        );
        proof {
            let keys = choose|keys: Seq<u64>| #[trigger]
                merging::are_merge_keys(request.strategy, *share, *score, chosen@, keys)
                    && ordered@ == merging::ordered_by(chosen@, keys);
            merging::lemma_total_in_any_order(chosen@, keys);
            merging::lemma_ordered_from(chosen@, keys);
            assert(segments.len() == segments@.len());
            merging::lemma_asked_from(segments@, request.segments@);
            assert forall|k: int| 0 <= k < ordered@.len() implies (#[trigger] ordered@[k]).reader.wf() by {
                assert(merging::is_among(chosen@, merging::ordered_by(chosen@, keys)[k]));
                let j = choose|j: int|
                    0 <= j < chosen@.len() && ordered@[k] == #[trigger] chosen@[j];
                assert(merging::is_among(segments@, chosen@[j]));
            }
        }
        let merged: PendingMerge = match self.perform_merge(
            &ordered,
            segment_id.as_str(),
            decode,
            analyze,
            candidate,
        ) {
            Ok(p) => p,
            Err(e) => return Err(e),
        };
        let mut stats: MergeStats = merged.stats;
        stats.size_before = size;
        let p = PendingMerge { segment_info: merged.segment_info, buffer: merged.buffer, stats };
        proof {
            assert(merging::is_merge_order(request.strategy, *share, *score, chosen@, ordered@));
            assert(is_merge_of(
                *decode,
                *analyze,
                *candidate,
                self.settings(),
                ordered@,
                merged_id(next_generation),
                p,
            ));
        }
        Ok(p)
    }

    /// Completes a merge whose segment was written into `files`. `found` is how many
    /// documents the segment has when it is opened, and `ratio` divides two sizes.
    pub fn complete_merge<F: Fn(u64, u64) -> u64>(
        &self,
        merged: PendingMerge,
        files: &Vec<(String, u64)>,
        now: u64,
        start_millis: u64,
        end_millis: u64,
        found: Result<u64, LaurusError>,
        ratio: &F,
    ) -> (r: Result<MergeResult, LaurusError>)
        requires
            files_size(files@, files@.len() as int) <= u64::MAX,
            forall|a: u64, b: u64| b > 0 ==> call_requires(*ratio, (a, b)),
        ensures
            ({
                let info = merged.segment_info;
                if self.settings().verify_after_merge && found is Err {
                    r == Err::<MergeResult, LaurusError>(found->Err_0)
                } else if self.settings().verify_after_merge && found->Ok_0 != info.doc_count {
                    r == Err::<MergeResult, LaurusError>(LaurusError::MergedCount)
                } else {
                    &&& r is Ok
                    &&& is_written(r->Ok_0.new_segment, info, files@, now)
                    &&& data::texts(r->Ok_0.file_paths@) == paths_of(files@)
                    &&& completed_stats(
                        *ratio,
                        merged.stats,
                        r->Ok_0.stats,
                        files_size(files@, files@.len() as int) as u64,
                        if end_millis >= start_millis {
                            (end_millis - start_millis) as u64
                        } else {
                            0
                        },
                    )
                }
            }),
    {
        let doc_count: u64 = merged.segment_info.doc_count;
        let (new_segment, file_paths) = written(merged.segment_info, files, now);
        let mut stats: MergeStats = merged.stats;
        stats.merge_time_ms = end_millis.saturating_sub(start_millis);
        stats.size_after = new_segment.size_bytes;
        stats.compression_ratio = if stats.size_before > 0 {
            (*ratio)(stats.size_after, stats.size_before)
        } else {
            FLOAT_ONE
        };
        if self.config.verify_after_merge {
            match found {
                Ok(count) => if count != doc_count {
                    return Err(LaurusError::MergedCount);
                },
                Err(e) => return Err(e),
            }
        }
        Ok(MergeResult { new_segment, stats, file_paths })
    }

    /// Rebuilds every segment with one field analyzed anew, up to the writing of the new
    /// segments: one for each, with the documents that are live in it.
    #[verifier::rlimit(40)]
    pub fn rebuild_field_across_segments<
        D: Fn(&SegmentInfo, u64, PostingFormat) -> Result<DecodedPostingList, LaurusError>,
        N: Fn(&str, &DataValue) -> Result<Vec<AnalyzedTerm>, LaurusError>,
        C: Fn(&DataValue) -> bool,
        R: Fn(&str, &DataValue) -> Result<(Vec<AnalyzedTerm>, Vec<Vec<u64>>), LaurusError>,
    >(
        &self,
        segments: &Vec<&MergeSource>,
        target_field: &str,
        rederive: Option<&R>,
        target_term_vectors: bool,
        target_doc_values: bool,
        new_segment_ids: &Vec<String>,
        decode: &D,
        analyze: &N,
        candidate: &C,
    ) -> (r: Result<Vec<PendingMerge>, LaurusError>)
        requires
            self.wf(),
            segments@.len() == new_segment_ids@.len(),
            forall|i: int| 0 <= i < segments@.len() ==> (#[trigger] segments@[i]).reader.wf(),
            forall|s: &SegmentInfo, o: u64, f: PostingFormat| call_requires(*decode, (s, o, f)),
            segment_reader::decodes_well(*decode),
            forall|f: &str, v: &DataValue| call_requires(*analyze, (f, v)),
            forall|v: &DataValue| call_requires(*candidate, (v,)),
            rederive is Some ==> forall|f: &str, v: &DataValue|
                call_requires(*rederive->Some_0, (f, v)),
        ensures
            match r {
                Ok(list) => {
                    let positions = seq![(target_field@, target_term_vectors)];
                    let columns = names::with_value(
                        self.settings().field_doc_values@,
                        target_field@,
                        target_doc_values,
                    );
                    &&& list@.len() == segments@.len()
                    &&& forall|i: int|
                        0 <= i < list@.len() ==> is_rebuilt_segment(
                            *decode,
                            *analyze,
                            *candidate,
                            rederive,
                            *segments@[i],
                            target_field@,
                            new_segment_ids@[i]@,
                            positions_before(list@, positions, i),
                            columns_before(list@, columns, i),
                            #[trigger] list@[i],
                        )
                },
                Err(e) => rebuild_fails(
                    *decode,
                    *analyze,
                    rederive,
                    segments@,
                    target_field@,
                    e,
                ),
            },
    {
        let ghost target = target_field@;
        let ghost positions0 = seq![(target, target_term_vectors)];
        let ghost columns0 = names::with_value(
            self.settings().field_doc_values@,
            target,
            target_doc_values,
        );
        let mut positions: FieldMap<bool> = FieldMap::new();
        positions.insert(target_field.to_string(), target_term_vectors);
        assert(positions@ =~= positions0);
        let mut columns: FieldMap<bool> = data::copy_map(&self.config.field_doc_values);
        columns.insert(target_field.to_string(), target_doc_values);
        let n: usize = segments.len();
        let mut list: Vec<PendingMerge> = Vec::new();
        let mut i: usize = 0;
        while i < n
            invariant
                target == target_field@,
                n == segments@.len(),
                n == new_segment_ids@.len(),
                i <= n,
                forall|k: int| 0 <= k < segments@.len() ==> (#[trigger] segments@[k]).reader.wf(),
                forall|s: &SegmentInfo, o: u64, f: PostingFormat|
                    call_requires(*decode, (s, o, f)),
                segment_reader::decodes_well(*decode),
                forall|f: &str, v: &DataValue| call_requires(*analyze, (f, v)),
                forall|v: &DataValue| call_requires(*candidate, (v,)),
                rederive is Some ==> forall|f: &str, v: &DataValue|
                    call_requires(*rederive->Some_0, (f, v)),
                positions.wf(),
                columns.wf(),
                list@.len() == i,
                rebuildable_before(
                    *decode,
                    *analyze,
                    rederive,
                    segments@,
                    target,
                    i as int,
                ),
                positions@ == positions_before(list@, positions0, i as int),
                columns@ == columns_before(list@, columns0, i as int),
                forall|k: int|
                    0 <= k < i ==> is_rebuilt_segment(
                        *decode,
                        *analyze,
                        *candidate,
                        rederive,
                        *segments@[k],
                        target,
                        new_segment_ids@[k]@,
                        positions_before(list@, positions0, k),
                        columns_before(list@, columns0, k),
                        #[trigger] list@[k],
                    ),
            decreases n - i,
        {
            let source: &MergeSource = segments[i];
            let ghost before = list@;
            let deleted = merging::load_deleted_docs(&source.reader);
            let documents: Vec<(u64, AnalyzedDocument)> =
                match replay::reconstruct_segment_with_field_override(
                &source.reader,
                &deleted,
                &mut positions,
                &mut columns,
                target_field,
                rederive,
                decode,
                analyze,
                candidate,
            ) {
                Ok(d) => d,
                Err(e) => {
                    assert(segments@[i as int].reader == source.reader);
                    return Err(e);
                },
            };
            let shard_id: u16 = source.managed.segment_info.shard_id;
            proof {
                lemma_rebuilt_ids(
                    *decode,
                    *analyze,
                    *candidate,
                    rederive,
                    source.reader,
                    merging::deletions_of(source.reader),
                    target,
                    positions_before(before, positions0, i as int),
                    positions@,
                    columns_before(before, columns0, i as int),
                    columns@,
                    documents@,
                );
            }
            let segment_info: SegmentInfo = describe(
                new_segment_ids[i].clone(),
                shard_id,
                &documents,
            );
            let mut stats: MergeStats = MergeStats::default();
            stats.segments_merged = 1;
            stats.docs_processed = segment_info.doc_count;
            stats.postings_merged = segment_info.doc_count;
            stats.shard_id = shard_id;
            let buffer = MergeBuffer {
                term_positions: data::copy_map(&positions),
                doc_values: data::copy_map(&columns),
                documents,
            };
            let p = PendingMerge { segment_info, buffer, stats };
            list.push(p);
            proof {
                assert forall|k: int| 0 <= k < i + 1 implies is_rebuilt_segment(
                    *decode,
                    *analyze,
                    *candidate,
                    rederive,
                    *segments@[k],
                    target,
                    new_segment_ids@[k]@,
                    positions_before(list@, positions0, k),
                    columns_before(list@, columns0, k),
                    #[trigger] list@[k],
                ) by {
                    if k < i {
                        assert(list@[k] == before[k]);
                    }
                    assert(positions_before(list@, positions0, k) == positions_before(
                        before,
                        positions0,
                        k,
                    ));
                    assert(columns_before(list@, columns0, k) == columns_before(
                        before,
                        columns0,
                        k,
                    ));
                }
            }
            i = i + 1;
        }
        Ok(list)
    }

    /// Completes the rebuilding of a segment that was written into `files`.
    pub fn complete_rebuild(&self, rebuilt: PendingMerge, files: &Vec<(String, u64)>, now: u64) -> (r:
        MergeResult)
        requires
            files_size(files@, files@.len() as int) <= u64::MAX,
        ensures
            is_written(r.new_segment, rebuilt.segment_info, files@, now),
            data::texts(r.file_paths@) == paths_of(files@),
            r.stats == rebuilt.stats,
    {
        let (new_segment, file_paths) = written(rebuilt.segment_info, files, now);
        MergeResult { new_segment, stats: rebuilt.stats, file_paths }
    }
}

/// What is known of a new segment of documents whose ids ascend.
fn describe(segment_id: String, shard_id: u16, docs: &Vec<(u64, AnalyzedDocument)>) -> (r: SegmentInfo)
    requires
        sort::ascends(merging::ids_of(docs@)),
    ensures
        describes(r, segment_id@, shard_id, docs@),
        r.doc_count == docs@.len(),
{
    let n: usize = docs.len();
    let ghost ids = merging::ids_of(docs@);
    let min_doc_id: u64 = if n > 0 {
        docs[0].0
    } else {
        0
    };
    let max_doc_id: u64 = if n > 0 {
        docs[n - 1].0
    } else {
        0
    };
    proof {
        if n > 0 {
            assert(ids[0] == min_doc_id);
            assert(ids[n - 1] == max_doc_id);
            assert(ids.contains(ids[0]));
            assert(ids.contains(ids[n - 1]));
        }
    }
    SegmentInfo {
        segment_id,
        doc_count: n as u64,
        min_doc_id,
        max_doc_id,
        generation: 0,
        has_deletions: false,
        deleted_count: Some(0),
        shard_id,
    }
}

proof fn lemma_rebuilt_ids<
    D: Fn(&SegmentInfo, u64, PostingFormat) -> Result<DecodedPostingList, LaurusError>,
    N: Fn(&str, &DataValue) -> Result<Vec<AnalyzedTerm>, LaurusError>,
    C: Fn(&DataValue) -> bool,
    R: Fn(&str, &DataValue) -> Result<(Vec<AnalyzedTerm>, Vec<Vec<u64>>), LaurusError>,
>(
    decode: D,
    analyze: N,
    candidate: C,
    rederive: Option<&R>,
    reader: SegmentReader,
    deleted: Set<u64>,
    field: Seq<char>,
    positions0: Seq<(Seq<char>, bool)>,
    positions: Seq<(Seq<char>, bool)>,
    columns0: Seq<(Seq<char>, bool)>,
    columns: Seq<(Seq<char>, bool)>,
    docs: Seq<(u64, AnalyzedDocument)>,
)
    requires
        replay::is_rebuilding(
            decode,
            analyze,
            candidate,
            rederive,
            reader,
            deleted,
            field,
            positions0,
            positions,
            columns0,
            columns,
            docs,
        ),
    ensures
        merging::ids_of(docs) == replay::chosen_ids(reader, deleted, None),
        sort::ascends(merging::ids_of(docs)),
{
    replay::lemma_chosen_ids(reader, deleted, None);
    assert(merging::ids_of(docs) =~= replay::chosen_ids(reader, deleted, None));
}

/// A rebuilt segment has the documents that are live in its source, and no others.
pub proof fn lemma_rebuild_keeps_documents<
    D: Fn(&SegmentInfo, u64, PostingFormat) -> Result<DecodedPostingList, LaurusError>,
    N: Fn(&str, &DataValue) -> Result<Vec<AnalyzedTerm>, LaurusError>,
    C: Fn(&DataValue) -> bool,
    R: Fn(&str, &DataValue) -> Result<(Vec<AnalyzedTerm>, Vec<Vec<u64>>), LaurusError>,
>(
    decode: D,
    analyze: N,
    candidate: C,
    rederive: Option<&R>,
    source: MergeSource,
    field: Seq<char>,
    segment_id: Seq<char>,
    positions: Seq<(Seq<char>, bool)>,
    columns: Seq<(Seq<char>, bool)>,
    p: PendingMerge,
    id: u64,
)
    requires
        is_rebuilt_segment(
            decode,
            analyze,
            candidate,
            rederive,
            source,
            field,
            segment_id,
            positions,
            columns,
            p,
        ),
    ensures
        merging::ids_of(p.buffer.documents@).contains(id) <==> merging::live_ids(
            source.reader,
        ).contains(id),
{
    let reader = source.reader;
    let gone = merging::deletions_of(reader);
    lemma_rebuilt_ids(
        decode,
        analyze,
        candidate,
        rederive,
        reader,
        gone,
        field,
        positions,
        p.buffer.term_positions@,
        columns,
        p.buffer.doc_values@,
        p.buffer.documents@,
    );
    replay::lemma_chosen_ids(reader, gone, None);
    assert(replay::chosen_ids(reader, gone, None).contains(id) <==> replay::is_chosen(
        reader,
        gone,
        None,
    )(id));
    if merging::live_ids(reader).contains(id) {
        assert(reader.documents()->Ok_0.contains_key(id));
    }
}

} // verus!
