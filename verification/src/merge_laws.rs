//! What a merge and a rebuilding keep.

use vstd::prelude::*;

use crate::analyzed::{AnalyzedDocument, AnalyzedTerm};
use crate::data;
use crate::data::DataValue;
use crate::error::LaurusError;
use crate::merge_engine;
use crate::merge_engine::{MergeConfig, PendingMerge};
use crate::merging;
use crate::merging::MergeSource;
use crate::names;
use crate::posting::{DecodedPostingList, PostingView};
use crate::reader;
use crate::replay;
use crate::replay::MergeBuffer;
use crate::segment::SegmentInfo;
use crate::segment_reader::{PostingFormat, SegmentReader};

verus! {

// ---------------------------------------------------------------------------
// Documents
// ---------------------------------------------------------------------------

/// A merge keeps documents: every document that is live in some segment is in the merged
/// one, once, and no other is.
pub proof fn lemma_merge_keeps_documents<
    D: Fn(&SegmentInfo, u64, PostingFormat) -> Result<DecodedPostingList, LaurusError>,
    N: Fn(&str, &DataValue) -> Result<Vec<AnalyzedTerm>, LaurusError>,
    C: Fn(&DataValue) -> bool,
>(
    decode: D,
    analyze: N,
    candidate: C,
    config: MergeConfig,
    sources: Seq<&MergeSource>,
    segment_id: Seq<char>,
    p: PendingMerge,
    id: u64,
)
    requires
        merge_engine::is_merge_of(decode, analyze, candidate, config, sources, segment_id, p),
    ensures
        merging::ids_of(p.buffer.documents@).no_duplicates(),
        merging::ids_of(p.buffer.documents@).contains(id) <==> exists|i: int|
            0 <= i < sources.len() && merging::live_ids((#[trigger] sources[i]).reader).contains(id),
{
    assert(merging::ids_of(p.buffer.documents@).contains(id) <==> merging::live_from(
        sources,
        0,
        id,
    ));
}

/// A merge keeps what documents store: each has the fields and the values that the last
/// segment in which it is live stores of it.
pub proof fn lemma_merge_keeps_stored_fields<
    D: Fn(&SegmentInfo, u64, PostingFormat) -> Result<DecodedPostingList, LaurusError>,
    N: Fn(&str, &DataValue) -> Result<Vec<AnalyzedTerm>, LaurusError>,
    C: Fn(&DataValue) -> bool,
>(
    decode: D,
    analyze: N,
    candidate: C,
    config: MergeConfig,
    sources: Seq<&MergeSource>,
    segment_id: Seq<char>,
    p: PendingMerge,
    j: int,
    last: int,
)
    requires
        merge_engine::is_merge_of(decode, analyze, candidate, config, sources, segment_id, p),
        0 <= j < p.buffer.documents@.len(),
        0 <= last < sources.len(),
        merging::owned_by(sources, last).contains(p.buffer.documents@[j].0),
    ensures
        data::fields_view(p.buffer.documents@[j].1.stored_fields@) == replay::stored_at(
            sources[last].reader,
            p.buffer.documents@[j].0,
        ),
{
    let docs = p.buffer.documents@;
    let id = docs[j].0;
    assert(merging::is_from_owner(decode, analyze, sources, id, docs[j].1));
    let i = choose|i: int|
        0 <= i < sources.len() && #[trigger] merging::owned_by(sources, i).contains(id)
            && merging::comes_from(decode, analyze, sources[i].reader, id, docs[j].1);
    assert(merging::live_ids(sources[i].reader).contains(id));
    merging::lemma_owned_once(sources, id);
    assert(i == last);
}

// ---------------------------------------------------------------------------
// Columns
// ---------------------------------------------------------------------------

proof fn lemma_columns_through<
    D: Fn(&SegmentInfo, u64, PostingFormat) -> Result<DecodedPostingList, LaurusError>,
    N: Fn(&str, &DataValue) -> Result<Vec<AnalyzedTerm>, LaurusError>,
    C: Fn(&DataValue) -> bool,
>(
    decode: D,
    analyze: N,
    candidate: C,
    sources: Seq<&MergeSource>,
    columns: Seq<(Seq<char>, bool)>,
    bufs: Seq<MergeBuffer>,
    n: int,
    k: int,
    field: Seq<char>,
)
    requires
        merging::merged_through(decode, analyze, candidate, sources, columns, bufs, n),
        0 <= k <= n <= sources.len(),
    ensures
        match names::value_of(columns, field) {
            Some(b) => names::value_of(bufs[k].doc_values@, field) == Some(b),
            None => match names::value_of(bufs[k].doc_values@, field) {
                Some(b) => exists|i: int| 0 <= i < k && #[trigger] shows_column(
                    candidate,
                    sources,
                    i,
                    field,
                    b,
                ),
                None => forall|i: int| 0 <= i < k ==> #[trigger] shows_no_column(
                    candidate,
                    sources,
                    i,
                    field,
                ),
            },
        },
    decreases k,
{
    if k > 0 {
        lemma_columns_through(
            decode,
            analyze,
            candidate,
            sources,
            columns,
            bufs,
            n,
            k - 1,
            field,
        );
        let reader = sources[k - 1].reader;
        let gone = merging::deletions_of(reader);
        assert(merging::step_at(
            decode,
            analyze,
            candidate,
            sources,
            bufs[k - 1],
            bufs[k],
            k - 1,
        ));
        assert(replay::column_settled(
            candidate,
            reader,
            gone,
            replay::stored_ids(reader),
            bufs[k - 1].doc_values@,
            bufs[k].doc_values@,
            field,
        ));
        match names::value_of(columns, field) {
            Some(_) => {},
            None => match names::value_of(bufs[k].doc_values@, field) {
                Some(b) => {
                    if names::value_of(bufs[k - 1].doc_values@, field) is None {
                        assert(shows_column(candidate, sources, k - 1, field, b));
                    }
                },
                None => {
                    assert(shows_no_column(candidate, sources, k - 1, field));
                },
            },
        }
    }
}

/// Whether a segment shows that a field has a column, or has none: a live document of it
/// has a value of the field that a column can hold.
pub open spec fn shows_column<C: Fn(&DataValue) -> bool>(
    candidate: C,
    sources: Seq<&MergeSource>,
    i: int,
    field: Seq<char>,
    has: bool,
) -> bool {
    let reader = sources[i].reader;
    has == reader::has_column(reader, field) && replay::some_candidate(
        candidate,
        reader,
        merging::deletions_of(reader),
        replay::stored_ids(reader),
        field,
    )
}

/// Whether no live document of a segment has a value of a field that a column can hold.
pub open spec fn shows_no_column<C: Fn(&DataValue) -> bool>(
    candidate: C,
    sources: Seq<&MergeSource>,
    i: int,
    field: Seq<char>,
) -> bool {
    let reader = sources[i].reader;
    replay::no_candidate(
        candidate,
        reader,
        merging::deletions_of(reader),
        replay::stored_ids(reader),
        field,
    )
}

/// Where the schema says whether a field has a column, the merged segment follows it,
/// whatever the segments had.
pub proof fn lemma_schema_settles_columns<
    D: Fn(&SegmentInfo, u64, PostingFormat) -> Result<DecodedPostingList, LaurusError>,
    N: Fn(&str, &DataValue) -> Result<Vec<AnalyzedTerm>, LaurusError>,
    C: Fn(&DataValue) -> bool,
>(
    decode: D,
    analyze: N,
    candidate: C,
    config: MergeConfig,
    sources: Seq<&MergeSource>,
    segment_id: Seq<char>,
    p: PendingMerge,
    field: Seq<char>,
)
    requires
        merge_engine::is_merge_of(decode, analyze, candidate, config, sources, segment_id, p),
        names::value_of(config.field_doc_values@, field) is Some,
    ensures
        names::value_of(p.buffer.doc_values@, field) == names::value_of(
            config.field_doc_values@,
            field,
        ),
{
    let n = sources.len() as int;
    let columns = config.field_doc_values@;
    let bufs = choose|bufs: Seq<MergeBuffer>| #[trigger]
        merging::merged_through(decode, analyze, candidate, sources, columns, bufs, n)
            && bufs.last() == p.buffer;
    lemma_columns_through(decode, analyze, candidate, sources, columns, bufs, n, n, field);
}

/// Where the schema does not say whether a field has a column, a segment does that has a
/// value for it; segments without one say nothing.
pub proof fn lemma_segments_settle_columns<
    D: Fn(&SegmentInfo, u64, PostingFormat) -> Result<DecodedPostingList, LaurusError>,
    N: Fn(&str, &DataValue) -> Result<Vec<AnalyzedTerm>, LaurusError>,
    C: Fn(&DataValue) -> bool,
>(
    decode: D,
    analyze: N,
    candidate: C,
    config: MergeConfig,
    sources: Seq<&MergeSource>,
    segment_id: Seq<char>,
    p: PendingMerge,
    field: Seq<char>,
)
    requires
        merge_engine::is_merge_of(decode, analyze, candidate, config, sources, segment_id, p),
        names::value_of(config.field_doc_values@, field) is None,
    ensures
        match names::value_of(p.buffer.doc_values@, field) {
            Some(b) => exists|i: int| 0 <= i < sources.len() && #[trigger] shows_column(
                candidate,
                sources,
                i,
                field,
                b,
            ),
            None => forall|i: int| 0 <= i < sources.len() ==> #[trigger] shows_no_column(
                candidate,
                sources,
                i,
                field,
            ),
        },
{
    let n = sources.len() as int;
    let columns = config.field_doc_values@;
    let bufs = choose|bufs: Seq<MergeBuffer>| #[trigger]
        merging::merged_through(decode, analyze, candidate, sources, columns, bufs, n)
            && bufs.last() == p.buffer;
    lemma_columns_through(decode, analyze, candidate, sources, columns, bufs, n, n, field);
}

// ---------------------------------------------------------------------------
// Positions
// ---------------------------------------------------------------------------

/// Whether these are the postings of a term, and the first has positions or has none.
pub open spec fn first_shows<
    D: Fn(&SegmentInfo, u64, PostingFormat) -> Result<DecodedPostingList, LaurusError>,
    N: Fn(&str, &DataValue) -> Result<Vec<AnalyzedTerm>, LaurusError>,
>(
    decode: D,
    analyze: N,
    reader: SegmentReader,
    field: Seq<char>,
    term: Seq<char>,
    list: Seq<PostingView>,
    keeps: bool,
) -> bool {
    &&& reader::postings_are(decode, analyze, reader, field, term, Some(list))
    &&& list.len() > 0
    &&& keeps == (list[0].positions.len() > 0)
}

/// Whether a segment shows that a field keeps positions, or keeps none: some of its
/// postings has or has not.
pub open spec fn shows_positions<
    D: Fn(&SegmentInfo, u64, PostingFormat) -> Result<DecodedPostingList, LaurusError>,
    N: Fn(&str, &DataValue) -> Result<Vec<AnalyzedTerm>, LaurusError>,
>(decode: D, analyze: N, reader: SegmentReader, field: Seq<char>, keeps: bool) -> bool {
    exists|term: Seq<char>, list: Seq<PostingView>| #[trigger]
        first_shows(decode, analyze, reader, field, term, list, keeps)
}

/// What is settled stays settled, and what is not is settled by postings of that field.
proof fn lemma_positions_pinned(
    s: Seq<(Seq<char>, bool)>,
    keys: Seq<Seq<char>>,
    outs: Seq<Option<Seq<PostingView>>>,
    n: int,
    field: Seq<char>,
)
    requires
        names::names_ascend(s),
        0 <= n <= keys.len(),
        n <= outs.len(),
    ensures
        names::names_ascend(replay::positions_pinned(s, keys, outs, n)),
        match names::value_of(s, field) {
            Some(b) => names::value_of(replay::positions_pinned(s, keys, outs, n), field) == Some(b),
            None => match names::value_of(replay::positions_pinned(s, keys, outs, n), field) {
                Some(b) => some_settles(keys, outs, n, field, b),
                None => true,
            },
        },
    decreases n,
{
    if n > 0 {
        lemma_positions_pinned(s, keys, outs, n - 1, field);
        let before = replay::positions_pinned(s, keys, outs, n - 1);
        let after = replay::positions_pinned(s, keys, outs, n);
        match (replay::key_parts(keys[n - 1]), outs[n - 1]) {
            (Some((f, _)), Some(list)) => if list.len() > 0 {
                let setting = list[0].positions.len() > 0;
                names::lemma_with_value(before, f, setting);
                assert(after == replay::pinned(before, f, setting));
                if f != field {
                    assert(names::value_of(after, field) == names::value_of(before, field));
                } else if names::has_name(before, field) {
                    assert(after == before);
                } else {
                    assert(names::value_of(before, field) is None);
                    assert(names::value_of(after, field) == Some(setting));
                    assert(settles(keys, outs, n - 1, field, setting));
                }
            },
            _ => {},
        }
        if let Some(b) = names::value_of(before, field) {
            assert(some_settles(keys, outs, n - 1, field, b) ==> some_settles(
                keys,
                outs,
                n,
                field,
                b,
            ));
        }
    }
}

/// Whether the postings of name `k` are of this field and the first has positions or has
/// none.
spec fn settles(
    keys: Seq<Seq<char>>,
    outs: Seq<Option<Seq<PostingView>>>,
    k: int,
    field: Seq<char>,
    keeps: bool,
) -> bool {
    match (replay::key_parts(keys[k]), outs[k]) {
        (Some((f, _)), Some(list)) => f == field && list.len() > 0 && keeps == (
        list[0].positions.len() > 0),
        _ => false,
    }
}

/// Whether the postings of one of the first `n` names settle it.
spec fn some_settles(
    keys: Seq<Seq<char>>,
    outs: Seq<Option<Seq<PostingView>>>,
    n: int,
    field: Seq<char>,
    keeps: bool,
) -> bool {
    exists|k: int| 0 <= k < n && #[trigger] settles(keys, outs, k, field, keeps)
}

proof fn lemma_settles_shows<
    D: Fn(&SegmentInfo, u64, PostingFormat) -> Result<DecodedPostingList, LaurusError>,
    N: Fn(&str, &DataValue) -> Result<Vec<AnalyzedTerm>, LaurusError>,
>(
    decode: D,
    analyze: N,
    reader: SegmentReader,
    skip: Option<Seq<char>>,
    outs: Seq<Option<Seq<PostingView>>>,
    k: int,
    field: Seq<char>,
    keeps: bool,
)
    requires
        0 <= k < outs.len(),
        replay::are_listed(decode, analyze, reader, skip, replay::reader_keys(reader), outs),
        settles(replay::reader_keys(reader), outs, k, field, keeps),
    ensures
        shows_positions(decode, analyze, reader, field, keeps),
{
    let key = replay::reader_keys(reader)[k];
    assert(replay::is_listed(decode, analyze, reader, skip, key, outs[k]));
    let term = replay::key_parts(key)->Some_0.1;
    let list = outs[k]->Some_0;
    assert(first_shows(decode, analyze, reader, field, term, list, keeps));
}

proof fn lemma_positions_through<
    D: Fn(&SegmentInfo, u64, PostingFormat) -> Result<DecodedPostingList, LaurusError>,
    N: Fn(&str, &DataValue) -> Result<Vec<AnalyzedTerm>, LaurusError>,
    C: Fn(&DataValue) -> bool,
>(
    decode: D,
    analyze: N,
    candidate: C,
    sources: Seq<&MergeSource>,
    columns: Seq<(Seq<char>, bool)>,
    bufs: Seq<MergeBuffer>,
    n: int,
    k: int,
    field: Seq<char>,
)
    requires
        merging::merged_through(decode, analyze, candidate, sources, columns, bufs, n),
        0 <= k <= n <= sources.len(),
    ensures
        names::names_ascend(bufs[k].term_positions@),
        match names::value_of(bufs[k].term_positions@, field) {
            Some(b) => exists|i: int|
                0 <= i < k && shows_positions(
                    decode,
                    analyze,
                    (#[trigger] sources[i]).reader,
                    field,
                    b,
                ),
            None => true,
        },
    decreases k,
{
    if k == 0 {
        assert(!names::has_name(bufs[0].term_positions@, field));
    } else {
        lemma_positions_through(
            decode,
            analyze,
            candidate,
            sources,
            columns,
            bufs,
            n,
            k - 1,
            field,
        );
        let reader = sources[k - 1].reader;
        let keys = replay::reader_keys(reader);
        let before = bufs[k - 1].term_positions@;
        assert(merging::step_at(
            decode,
            analyze,
            candidate,
            sources,
            bufs[k - 1],
            bufs[k],
            k - 1,
        ));
        let outs = choose|outs: Seq<Option<Seq<PostingView>>>| #[trigger]
            replay::replay_done(
                decode,
                analyze,
                candidate,
                reader,
                merging::deletions_of(reader),
                merging::asked_of(sources, k - 1),
                bufs[k - 1],
                bufs[k],
                outs,
            );
        lemma_positions_pinned(before, keys, outs, keys.len() as int, field);
        if names::value_of(before, field) is None {
            if let Some(b) = names::value_of(bufs[k].term_positions@, field) {
                let at = choose|at: int|
                    0 <= at < keys.len() && #[trigger] settles(keys, outs, at, field, b);
                lemma_settles_shows(decode, analyze, reader, None, outs, at, field, b);
                assert(shows_positions(decode, analyze, sources[k - 1].reader, field, b));
            }
        }
    }
}

/// Whether a field of a merged segment keeps positions is what postings of that very field
/// show in some segment.
pub proof fn lemma_positions_are_shown<
    D: Fn(&SegmentInfo, u64, PostingFormat) -> Result<DecodedPostingList, LaurusError>,
    N: Fn(&str, &DataValue) -> Result<Vec<AnalyzedTerm>, LaurusError>,
    C: Fn(&DataValue) -> bool,
>(
    decode: D,
    analyze: N,
    candidate: C,
    config: MergeConfig,
    sources: Seq<&MergeSource>,
    segment_id: Seq<char>,
    p: PendingMerge,
    field: Seq<char>,
)
    requires
        merge_engine::is_merge_of(decode, analyze, candidate, config, sources, segment_id, p),
        names::value_of(p.buffer.term_positions@, field) is Some,
    ensures
        exists|i: int|
            0 <= i < sources.len() && shows_positions(
                decode,
                analyze,
                (#[trigger] sources[i]).reader,
                field,
                names::value_of(p.buffer.term_positions@, field)->Some_0,
            ),
{
    let n = sources.len() as int;
    let columns = config.field_doc_values@;
    let bufs = choose|bufs: Seq<MergeBuffer>| #[trigger]
        merging::merged_through(decode, analyze, candidate, sources, columns, bufs, n)
            && bufs.last() == p.buffer;
    lemma_positions_through(decode, analyze, candidate, sources, columns, bufs, n, n, field);
}

// ---------------------------------------------------------------------------
// Rebuilding
// ---------------------------------------------------------------------------

/// A rebuilding keeps what documents store.
pub proof fn lemma_rebuild_keeps_stored_fields<
    D: Fn(&SegmentInfo, u64, PostingFormat) -> Result<DecodedPostingList, LaurusError>,
    N: Fn(&str, &DataValue) -> Result<Vec<AnalyzedTerm>, LaurusError>,
    C: Fn(&DataValue) -> bool,
    R: Fn(&str, &DataValue) -> Result<(Vec<AnalyzedTerm>, Vec<Vec<u64>>), LaurusError>,
>(
    decode: D,
    analyze: N,
    candidate: C,
    rederive: Option<&R>,
    source: MergeSource,
    field: Seq<char>,
    segment_id: Seq<char>,
    positions: Seq<(Seq<char>, bool)>,
    columns: Seq<(Seq<char>, bool)>,
    p: PendingMerge,
    j: int,
)
    requires
        merge_engine::is_rebuilt_segment(
            decode,
            analyze,
            candidate,
            rederive,
            source,
            field,
            segment_id,
            positions,
            columns,
            p,
        ),
        0 <= j < p.buffer.documents@.len(),
    ensures
        data::fields_view(p.buffer.documents@[j].1.stored_fields@) == replay::stored_at(
            source.reader,
            p.buffer.documents@[j].0,
        ),
{
    let docs: Seq<(u64, AnalyzedDocument)> = p.buffer.documents@;
    let gone = merging::deletions_of(source.reader);
    let outs = choose|outs: Seq<Option<Seq<PostingView>>>| #[trigger]
        replay::rebuild_done(
            decode,
            analyze,
            candidate,
            rederive,
            source.reader,
            gone,
            field,
            positions,
            p.buffer.term_positions@,
            columns,
            p.buffer.doc_values@,
            docs,
            outs,
        );
    assert(docs[j].0 == replay::chosen_ids(source.reader, gone, None)[j]);
}

/// A rebuilding leaves every setting that was settled before it: that of the field which is
/// analyzed anew is what was given.
pub proof fn lemma_rebuild_keeps_settings<
    D: Fn(&SegmentInfo, u64, PostingFormat) -> Result<DecodedPostingList, LaurusError>,
    N: Fn(&str, &DataValue) -> Result<Vec<AnalyzedTerm>, LaurusError>,
    C: Fn(&DataValue) -> bool,
    R: Fn(&str, &DataValue) -> Result<(Vec<AnalyzedTerm>, Vec<Vec<u64>>), LaurusError>,
>(
    decode: D,
    analyze: N,
    candidate: C,
    rederive: Option<&R>,
    source: MergeSource,
    field: Seq<char>,
    segment_id: Seq<char>,
    positions: Seq<(Seq<char>, bool)>,
    columns: Seq<(Seq<char>, bool)>,
    p: PendingMerge,
    settled: Seq<char>,
)
    requires
        merge_engine::is_rebuilt_segment(
            decode,
            analyze,
            candidate,
            rederive,
            source,
            field,
            segment_id,
            positions,
            columns,
            p,
        ),
        names::names_ascend(positions),
    ensures
        names::value_of(positions, settled) is Some ==> names::value_of(
            p.buffer.term_positions@,
            settled,
        ) == names::value_of(positions, settled),
        names::value_of(columns, settled) is Some ==> names::value_of(
            p.buffer.doc_values@,
            settled,
        ) == names::value_of(columns, settled),
{
    let reader = source.reader;
    let keys = replay::reader_keys(reader);
    let outs = choose|outs: Seq<Option<Seq<PostingView>>>| #[trigger]
        replay::rebuild_done(
            decode,
            analyze,
            candidate,
            rederive,
            reader,
            merging::deletions_of(reader),
            field,
            positions,
            p.buffer.term_positions@,
            columns,
            p.buffer.doc_values@,
            p.buffer.documents@,
            outs,
        );
    lemma_positions_pinned(positions, keys, outs, keys.len() as int, settled);
    assert(replay::column_settled(
        candidate,
        reader,
        merging::deletions_of(reader),
        replay::stored_ids(reader),
        columns,
        p.buffer.doc_values@,
        settled,
    ));
}

} // verus!
