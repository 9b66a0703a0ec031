//! What a reader of several segments says, from what its segments say.

use vstd::prelude::*;

use crate::bkd_tree;
use crate::bkd_tree::{BKDReader, BKDTree};
use crate::data::{DataValue, Document};
use crate::dictionary;
use crate::dictionary::{TermDictionary, TermInfoView};
use crate::error::LaurusError;
use crate::floats;
use crate::live_tree;
use crate::live_tree::{DeletionFilteringBKDTree, MultiSegmentBKDTree};
use crate::names;
use crate::norms::{FieldStats, StatsView};
use crate::numbers;
use crate::numbers::{Forms, Number};
use crate::reader;
use crate::reader::{InvertedIndexReader, InvertedIndexReaderConfig, ReaderTermInfo};
use crate::search_laws;
use crate::segment_reader;
use crate::segment_reader::SegmentReader;
use crate::sort;
use crate::term_cache::CacheManager;
use crate::visitor;
use crate::visitor::RangeQueryVisitor;

verus! {

// ---------------------------------------------------------------------------
// Statistics
// ---------------------------------------------------------------------------

/// What a segment that can be read has as the statistics of a field.
pub open spec fn own_stats(s: SegmentReader, field: Seq<char>) -> Option<StatsView> {
    names::value_of(s.measures()->Ok_0.all_stats(), field)
}

/// The segments that have statistics of a field, by their number.
pub open spec fn with_stats(readers: Seq<SegmentReader>, field: Seq<char>) -> Seq<int> {
    Seq::new(readers.len(), |i: int| i).filter(|i: int| own_stats(readers[i], field) is Some)
}

/// The sum of the second parts.
pub open spec fn weights(parts: Seq<(u64, u64)>) -> nat
    decreases parts.len(),
{
    if parts.len() == 0 {
        0
    } else {
        weights(parts.drop_last()) + parts.last().1 as nat
    }
}

proof fn lemma_stats_of_segments(readers: Seq<SegmentReader>, field: Seq<char>, n: int)
    requires
        0 <= n <= readers.len(),
        reader::stats_found(readers, field, n) is Ok,
    ensures
        forall|i: int| 0 <= i < n ==> (#[trigger] readers[i]).measures() is Ok,
        reader::stats_found(readers, field, n)->Ok_0 == Seq::new(n as nat, |i: int| i).filter(
            |i: int| own_stats(readers[i], field) is Some,
        ).map_values(|i: int| own_stats(readers[i], field)->Some_0),
    decreases n,
{
    reveal(Seq::filter);
    let has = |i: int| own_stats(readers[i], field) is Some;
    let get = |i: int| own_stats(readers[i], field)->Some_0;
    let all = Seq::new(n as nat, |i: int| i);
    if n > 0 {
        lemma_stats_of_segments(readers, field, n - 1);
        let front = Seq::new((n - 1) as nat, |i: int| i);
        assert(all.drop_last() =~= front);
        assert(all.last() == n - 1);
        if has(n - 1) {
            assert(front.filter(has).push(n - 1).map_values(get) =~= front.filter(has).map_values(
                get,
            ).push(get(n - 1)));
        }
    } else {
        assert(all.filter(has).map_values(get) =~= Seq::empty());
    }
}

proof fn lemma_weights(parts: Seq<StatsView>)
    ensures
        weights(reader::weighted(parts)) == reader::counted(parts),
    decreases parts.len(),
{
    if parts.len() > 0 {
        lemma_weights(parts.drop_last());
        assert(reader::weighted(parts).drop_last() =~= reader::weighted(parts.drop_last()));
    }
}

proof fn lemma_lengths(parts: Seq<StatsView>)
    ensures
        forall|k: int| #![trigger parts[k]]
            0 <= k < parts.len() ==> reader::least_length(parts) <= parts[k].min_length
                && parts[k].max_length <= reader::greatest_length(parts),
        reader::least_length(parts) == u64::MAX || exists|k: int|
            0 <= k < parts.len() && (#[trigger] parts[k]).min_length == reader::least_length(parts),
        parts.len() > 0 ==> exists|k: int|
            0 <= k < parts.len() && (#[trigger] parts[k]).max_length == reader::greatest_length(
                parts,
            ),
    decreases parts.len(),
{
    if parts.len() > 0 {
        let front = parts.drop_last();
        let last = parts.len() - 1;
        lemma_lengths(front);
        assert forall|k: int| #![trigger parts[k]] 0 <= k < parts.len() implies reader::least_length(
            parts,
        ) <= parts[k].min_length && parts[k].max_length <= reader::greatest_length(parts) by {
            if k < last {
                assert(front[k] == parts[k]);
            }
        }
        if reader::least_length(parts) != u64::MAX {
            if parts[last].min_length != reader::least_length(parts) {
                let k = choose|k: int|
                    0 <= k < front.len() && (#[trigger] front[k]).min_length
                        == reader::least_length(front);
                assert(parts[k].min_length == reader::least_length(parts));
            }
        }
        if parts[last].max_length != reader::greatest_length(parts) {
            if front.len() > 0 {
                let k = choose|k: int|
                    0 <= k < front.len() && (#[trigger] front[k]).max_length
                        == reader::greatest_length(front);
                assert(parts[k].max_length == reader::greatest_length(parts));
            }
        }
    }
}

/// The statistics of a field over all segments. They are there exactly where some segment
/// has some. They are of as many documents as those of the segments together; their
/// average is the mean of the averages of the segments, each taken with the number of
/// documents it is of, one for each segment that has statistics; and their least and
/// greatest lengths bound those of every segment, and are those of some segment.
pub proof fn lemma_field_stats_over_segments<M: Fn(&Vec<(u64, u64)>) -> u64>(
    reader: InvertedIndexReader,
    field: &str,
    mean: M,
    r: Result<Option<FieldStats>, LaurusError>,
)
    requires
        call_ensures(InvertedIndexReader::field_stats::<M>, (&reader, field, &mean), r),
        r is Ok,
    ensures
        forall|i: int|
            0 <= i < reader.segments().len() ==> (#[trigger] reader.segments()[i]).measures() is Ok,
        match r->Ok_0 {
            None => with_stats(reader.segments(), field@).len() == 0,
            Some(s) => {
                let from = with_stats(reader.segments(), field@);
                let own = |i: int| own_stats(reader.segments()[i], field@)->Some_0;
                let parts = from.map_values(|i: int| (own(i).avg_length, own(i).doc_count));
                &&& from.len() > 0
                &&& s@.field == field@
                &&& s@.doc_count == weights(parts)
                &&& s@.doc_count > 0 ==> exists|v: &Vec<(u64, u64)>|
                    v@ == parts && #[trigger] call_ensures(mean, (v,), s@.avg_length)
                &&& s@.doc_count == 0 ==> s@.avg_length == 0
                &&& forall|k: int| #![trigger from[k]]
                    0 <= k < from.len() ==> s@.min_length <= own(from[k]).min_length && own(
                        from[k],
                    ).max_length <= s@.max_length
                &&& exists|k: int| #![trigger from[k]]
                    0 <= k < from.len() && own(from[k]).max_length == s@.max_length
                &&& (exists|k: int| #![trigger from[k]]
                    0 <= k < from.len() && own(from[k]).min_length == s@.min_length) || (s@.min_length
                    == 0 && forall|k: int| #![trigger from[k]]
                    0 <= k < from.len() ==> own(from[k]).min_length == u64::MAX)
            },
        },
{
    let readers = reader.segments();
    let n = readers.len() as int;
    let found = reader::stats_found(readers, field@, n)->Ok_0;
    lemma_stats_of_segments(readers, field@, n);
    lemma_weights(found);
    lemma_lengths(found);
    let from = with_stats(readers, field@);
    let own = |i: int| own_stats(readers[i], field@)->Some_0;
    assert(found.len() == from.len());
    assert forall|k: int| #![trigger from[k]] 0 <= k < from.len() implies found[k] == own(from[k]) by {}
    if let Some(s) = r->Ok_0 {
        let parts = from.map_values(|i: int| (own(i).avg_length, own(i).doc_count));
        assert(reader::weighted(found) =~= parts);
        assert forall|k: int| #![trigger from[k]] 0 <= k < from.len() implies s@.min_length <= own(
            from[k],
        ).min_length && own(from[k]).max_length <= s@.max_length by {
            assert(found[k] == own(from[k]));
        }
        let g = choose|k: int|
            0 <= k < found.len() && (#[trigger] found[k]).max_length == reader::greatest_length(found);
        assert(own(from[g]).max_length == s@.max_length);
        if reader::least_length(found) == u64::MAX {
            assert forall|k: int| #![trigger from[k]] 0 <= k < from.len() implies own(
                from[k],
            ).min_length == u64::MAX by {
                assert(found[k] == own(from[k]));
            }
        } else {
            let l = choose|k: int|
                0 <= k < found.len() && (#[trigger] found[k]).min_length == reader::least_length(
                    found,
                );
            assert(own(from[l]).min_length == s@.min_length);
        }
    }
}

// ---------------------------------------------------------------------------
// Documents
// ---------------------------------------------------------------------------

proof fn lemma_first<T>(answers: Seq<Option<T>>) -> (k: int)
    ensures
        0 <= k <= answers.len(),
        forall|i: int| 0 <= i < k ==> (#[trigger] answers[i]) is None,
        k < answers.len() ==> answers[k] is Some && reader::first_of(answers) == answers[k],
        k == answers.len() ==> reader::first_of(answers) is None,
    decreases answers.len(),
{
    if answers.len() == 0 || answers[0] is Some {
        0
    } else {
        let rest = answers.drop_first();
        let k = lemma_first(rest);
        assert forall|i: int| 0 <= i < k + 1 implies (#[trigger] answers[i]) is None by {
            if i > 0 {
                assert(rest[i - 1] == answers[i]);
            }
        }
        if k < rest.len() {
            assert(rest[k] == answers[k + 1]);
        }
        k + 1
    }
}

/// A segment gives a document exactly where it stores it and does not record it as
/// deleted, and then with the fields that it stores.
pub proof fn lemma_document_of_segment(
    segment: SegmentReader,
    id: u64,
    r: Result<Option<Document>, LaurusError>,
)
    requires
        segment.documents() is Ok,
        segment.gone() is Ok,
        call_ensures(SegmentReader::document, (&segment, id), r),
    ensures
        r is Ok,
        r->Ok_0 is Some <==> segment.documents()->Ok_0.contains_key(id)
            && !segment.gone()->Ok_0.contains(id),
        r->Ok_0 is Some ==> r->Ok_0->Some_0@ == segment.documents()->Ok_0[id],
{
}

/// A reader gives the document of the first segment that gives one; a segment that fails
/// is passed over.
pub proof fn lemma_document_of_first_segment(
    reader: InvertedIndexReader,
    id: u64,
    rs: Seq<Result<Option<Document>, LaurusError>>,
    r: Result<Option<Document>, LaurusError>,
) -> (k: int)
    requires
        !reader.has_closed(),
        rs.len() == reader.segments().len(),
        forall|i: int|
            0 <= i < rs.len() ==> call_ensures(
                SegmentReader::document,
                (&reader.segments()[i], id),
                #[trigger] rs[i],
            ),
        call_ensures(InvertedIndexReader::document, (&reader, id), r),
    ensures
        r is Ok,
        0 <= k <= rs.len(),
        forall|i: int|
            0 <= i < k ==> !((#[trigger] rs[i]) is Ok && rs[i]->Ok_0 is Some),
        k < rs.len() ==> rs[k] is Ok && rs[k]->Ok_0 is Some && r->Ok_0 is Some
            && r->Ok_0->Some_0@ == rs[k]->Ok_0->Some_0@,
        k == rs.len() ==> r->Ok_0 is None,
{
    let answers = reader.segments().map_values(|s: SegmentReader| reader::document_in(s, id));
    let k = lemma_first(answers);
    assert forall|i: int| 0 <= i < k implies !((#[trigger] rs[i]) is Ok && rs[i]->Ok_0 is Some) by {
        assert(answers[i] is None);
        assert(answers[i] == reader::document_in(reader.segments()[i], id));
    }
    if k < rs.len() {
        assert(answers[k] == reader::document_in(reader.segments()[k], id));
        assert(call_ensures(SegmentReader::document, (&reader.segments()[k], id), rs[k]));
    }
    k
}

/// A reader gives the length of a field of a document that the first segment gives whose
/// range has the document; a segment that fails is passed over.
pub proof fn lemma_length_of_first_segment(
    reader: InvertedIndexReader,
    id: u64,
    field: &str,
    rs: Seq<Result<Option<u32>, LaurusError>>,
    r: Result<Option<u32>, LaurusError>,
) -> (k: int)
    requires
        !reader.has_closed(),
        rs.len() == reader.segments().len(),
        forall|i: int|
            0 <= i < rs.len() ==> call_ensures(
                SegmentReader::field_length,
                (&reader.segments()[i], id, field),
                #[trigger] rs[i],
            ),
        call_ensures(InvertedIndexReader::field_length, (&reader, id, field), r),
    ensures
        0 <= k <= rs.len(),
        forall|i: int|
            0 <= i < k ==> !(in_range(reader.segments()[i], id) && (#[trigger] rs[i]) is Ok
                && rs[i]->Ok_0 is Some),
        k < rs.len() ==> in_range(reader.segments()[k], id) && rs[k] is Ok && rs[k]->Ok_0 is Some
            && r == rs[k],
        k == rs.len() ==> r == Ok::<Option<u32>, LaurusError>(None),
{
    let answers = reader.segments().map_values(
        |s: SegmentReader| reader::length_in(s, id, field@),
    );
    let k = lemma_first(answers);
    assert forall|i: int| 0 <= i < k implies !(in_range(reader.segments()[i], id) && (
    #[trigger] rs[i]) is Ok && rs[i]->Ok_0 is Some) by {
        assert(answers[i] is None);
        assert(answers[i] == reader::length_in(reader.segments()[i], id, field@));
    }
    if k < rs.len() {
        assert(answers[k] == reader::length_in(reader.segments()[k], id, field@));
        assert(call_ensures(
            SegmentReader::field_length,
            (&reader.segments()[k], id, field),
            rs[k],
        ));
    }
    k
}

/// Whether the range of a segment has a document.
pub open spec fn in_range(segment: SegmentReader, id: u64) -> bool {
    segment.about().min_doc_id <= id && id <= segment.about().max_doc_id
}

/// The sum of numbers.
pub open spec fn sum(ns: Seq<nat>) -> nat
    decreases ns.len(),
{
    if ns.len() == 0 {
        0
    } else {
        sum(ns.drop_last()) + ns.last()
    }
}

proof fn lemma_live_sum(readers: Seq<SegmentReader>, counts: Seq<u64>, n: int)
    requires
        0 <= n <= readers.len(),
        counts.len() == readers.len(),
        forall|i: int|
            0 <= i < counts.len() ==> call_ensures(
                SegmentReader::doc_count,
                (&readers[i],),
                #[trigger] counts[i],
            ),
        forall|i: int| 0 <= i < readers.len() ==> reader::countable(#[trigger] readers[i]),
    ensures
        reader::live_total(readers, n) == sum(counts.take(n).map_values(|c: u64| c as nat)),
    decreases n,
{
    let wide = |c: u64| c as nat;
    if n > 0 {
        lemma_live_sum(readers, counts, n - 1);
        assert(counts.take(n).map_values(wide).drop_last() =~= counts.take(n - 1).map_values(wide));
        assert(call_ensures(SegmentReader::doc_count, (&readers[n - 1],), counts[n - 1]));
        assert(reader::countable(readers[n - 1]));
    }
}

/// A reader counts as many live documents as its segments do together.
pub proof fn lemma_count_over_segments(
    reader: InvertedIndexReader,
    counts: Seq<u64>,
    r: u64,
)
    requires
        counts.len() == reader.segments().len(),
        forall|i: int|
            0 <= i < counts.len() ==> call_ensures(
                SegmentReader::doc_count,
                (&reader.segments()[i],),
                #[trigger] counts[i],
            ),
        forall|i: int|
            0 <= i < reader.segments().len() ==> reader::countable(
                #[trigger] reader.segments()[i],
            ),
        call_ensures(InvertedIndexReader::doc_count, (&reader,), r),
    ensures
        r == sum(counts.map_values(|c: u64| c as nat)),
{
    lemma_live_sum(reader.segments(), counts, counts.len() as int);
    assert(counts.take(counts.len() as int) =~= counts);
}

/// The ids that segments give, one segment behind another.
pub open spec fn ids_in_line(rs: Seq<Result<Vec<u64>, LaurusError>>) -> Seq<u64>
    decreases rs.len(),
{
    if rs.len() == 0 {
        Seq::empty()
    } else {
        ids_in_line(rs.drop_last()) + rs.last()->Ok_0@
    }
}

proof fn lemma_ids_of_segments(
    readers: Seq<SegmentReader>,
    rs: Seq<Result<Vec<u64>, LaurusError>>,
    n: int,
)
    requires
        0 <= n <= readers.len(),
        rs.len() == readers.len(),
        forall|i: int|
            0 <= i < rs.len() ==> call_ensures(
                SegmentReader::doc_ids,
                (&readers[i],),
                #[trigger] rs[i],
            ),
        reader::all_ids(readers, n) is Ok,
    ensures
        forall|i: int| 0 <= i < n ==> (#[trigger] rs[i]) is Ok,
        reader::all_ids(readers, n)->Ok_0 == ids_in_line(rs.take(n)),
    decreases n,
{
    if n > 0 {
        lemma_ids_of_segments(readers, rs, n - 1);
        assert(call_ensures(SegmentReader::doc_ids, (&readers[n - 1],), rs[n - 1]));
        let part = rs[n - 1]->Ok_0@;
        sort::lemma_in_order(part);
        assert(rs.take(n).drop_last() =~= rs.take(n - 1));
    }
}

/// A segment gives the ids of the documents that it stores, each once and in ascending
/// order, and a reader those of its segments, one segment behind another.
pub proof fn lemma_ids_over_segments(
    reader: InvertedIndexReader,
    rs: Seq<Result<Vec<u64>, LaurusError>>,
    r: Result<Vec<u64>, LaurusError>,
    i: int,
    id: u64,
)
    requires
        rs.len() == reader.segments().len(),
        forall|k: int|
            0 <= k < rs.len() ==> call_ensures(
                SegmentReader::doc_ids,
                (&reader.segments()[k],),
                #[trigger] rs[k],
            ),
        call_ensures(InvertedIndexReader::doc_ids, (&reader,), r),
        r is Ok,
        0 <= i < rs.len(),
    ensures
        r->Ok_0@ == ids_in_line(rs),
        rs[i] is Ok,
        rs[i]->Ok_0@.contains(id) <==> reader.segments()[i].documents()->Ok_0.contains_key(id),
        forall|j: int, k: int|
            0 <= j < k < rs[i]->Ok_0@.len() ==> (#[trigger] rs[i]->Ok_0@[j]) < (
            #[trigger] rs[i]->Ok_0@[k]),
{
    let n = rs.len() as int;
    lemma_ids_of_segments(reader.segments(), rs, n);
    assert(rs.take(n) =~= rs);
    assert(call_ensures(SegmentReader::doc_ids, (&reader.segments()[i],), rs[i]));
    let part = rs[i]->Ok_0@;
    assert(part.to_set().contains(id) <==> part.contains(id));
}

// ---------------------------------------------------------------------------
// Terms
// ---------------------------------------------------------------------------

/// The segments whose dictionary has a term, by their number.
pub open spec fn with_term(readers: Seq<SegmentReader>, field: Seq<char>, term: Seq<char>) -> Seq<
    int,
> {
    Seq::new(readers.len(), |i: int| i).filter(
        |i: int| readers[i].entry(field, term)->Ok_0 is Some,
    )
}

/// What the dictionary of a segment says of a term.
pub open spec fn own_entry(s: SegmentReader, field: Seq<char>, term: Seq<char>) -> TermInfoView {
    s.entry(field, term)->Ok_0->Some_0
}

proof fn lemma_gathered(
    readers: Seq<SegmentReader>,
    field: Seq<char>,
    term: Seq<char>,
    n: int,
)
    requires
        0 <= n <= readers.len(),
        reader::gathered(readers, field, term, n) is Ok,
    ensures
        ({
            let g = reader::gathered(readers, field, term, n)->Ok_0;
            let from = Seq::new(n as nat, |i: int| i).filter(
                |i: int| readers[i].entry(field, term)->Ok_0 is Some,
            );
            let own = |i: int| own_entry(readers[i], field, term);
            &&& forall|i: int| 0 <= i < n ==> (#[trigger] readers[i]).entry(field, term) is Ok
            &&& g.matched == from.len()
            &&& g.doc_freq == sum(from.map_values(|i: int| own(i).doc_frequency as nat))
            &&& g.total_freq == sum(from.map_values(|i: int| own(i).total_frequency as nat))
            &&& from.len() == 1 ==> g.blocks == own(from[0]).block_max
            &&& from.len() == 0 ==> g.blocks.len() == 0 && g.factor == 0
            &&& forall|k: int| #![trigger from[k]]
                0 <= k < from.len() && !floats::is_nan_32(own(from[k]).max_score_factor)
                    ==> !floats::is_nan_32(g.factor) && floats::rank_32(
                    own(from[k]).max_score_factor,
                ) <= floats::rank_32(g.factor)
            &&& g.factor == 0 || exists|k: int| #![trigger from[k]]
                0 <= k < from.len() && g.factor == own(from[k]).max_score_factor
        }),
    decreases n,
{
    reveal(Seq::filter);
    let has = |i: int| readers[i].entry(field, term)->Ok_0 is Some;
    let own = |i: int| own_entry(readers[i], field, term);
    let docs = |i: int| own(i).doc_frequency as nat;
    let totals = |i: int| own(i).total_frequency as nat;
    let all = Seq::new(n as nat, |i: int| i);
    if n > 0 {
        lemma_gathered(readers, field, term, n - 1);
        let front = Seq::new((n - 1) as nat, |i: int| i);
        let before = front.filter(has);
        let from = all.filter(has);
        assert(all.drop_last() =~= front);
        assert(all.last() == n - 1);
        let g = reader::gathered(readers, field, term, n - 1)->Ok_0;
        let h = reader::gathered(readers, field, term, n)->Ok_0;
        if has(n - 1) {
            assert(from =~= before.push(n - 1));
            assert(from.map_values(docs).drop_last() =~= before.map_values(docs));
            assert(from.map_values(totals).drop_last() =~= before.map_values(totals));
            if from.len() == 1 {
                assert(g.blocks + own(n - 1).block_max =~= own(n - 1).block_max);
            }
            assert forall|k: int| #![trigger from[k]] 0 <= k < from.len() && !floats::is_nan_32(
                own(from[k]).max_score_factor,
            ) implies !floats::is_nan_32(h.factor) && floats::rank_32(own(from[k]).max_score_factor)
                <= floats::rank_32(h.factor) by {
                if k < before.len() {
                    assert(from[k] == before[k]);
                }
            }
            if h.factor != 0 {
                if h.factor == own(n - 1).max_score_factor {
                    assert(from[before.len() as int] == n - 1);
                } else {
                    let k = choose|k: int| #![trigger before[k]]
                        0 <= k < before.len() && g.factor == own(before[k]).max_score_factor;
                    assert(from[k] == before[k]);
                }
            }
        } else {
            assert(from =~= before);
        }
    } else {
        assert(all.filter(has) =~= Seq::empty());
    }
}

/// What a reader says of a term that it looks up in its segments: it is unknown exactly
/// where no dictionary has it; its frequencies are those of the segments together; blocks
/// are given only of a single segment, and as it has them; and a factor is zero or that of
/// some segment, and then none is greater.
pub proof fn lemma_term_info_over_segments<
    F: Fn(Number) -> Forms,
    M: Fn(&Vec<(u64, u64)>) -> u64,
>(
    forms: F,
    mean: M,
    readers: Seq<SegmentReader>,
    field: Seq<char>,
    term: Seq<char>,
    before: CacheManager,
    after: CacheManager,
    r: Result<Option<ReaderTermInfo>, LaurusError>,
)
    requires
        reader::terms_fit(readers, field, term),
        reader::term_answered(forms, mean, readers, field, term, before, after, r),
        r is Ok,
    ensures
        forall|i: int|
            0 <= i < readers.len() ==> (#[trigger] readers[i]).entry(field, term) is Ok,
        match r->Ok_0 {
            None => with_term(readers, field, term).len() == 0,
            Some(t) => {
                let from = with_term(readers, field, term);
                let own = |i: int| own_entry(readers[i], field, term);
                &&& from.len() > 0
                &&& t.field@ == field
                &&& t.term@ == term
                &&& t.doc_freq == sum(from.map_values(|i: int| own(i).doc_frequency as nat))
                &&& t.total_freq == sum(from.map_values(|i: int| own(i).total_frequency as nat))
                &&& t.block_max@.len() > 0 ==> from.len() == 1 && t.block_max@ == own(
                    from[0],
                ).block_max
                &&& t.max_score_factor == 0 || exists|k: int| #![trigger from[k]]
                    0 <= k < from.len() && t.max_score_factor == own(from[k]).max_score_factor
                &&& t.max_score_factor != 0 ==> forall|k: int| #![trigger from[k]]
                    0 <= k < from.len() && !floats::is_nan_32(own(from[k]).max_score_factor)
                        ==> floats::rank_32(own(from[k]).max_score_factor) <= floats::rank_32(
                        t.max_score_factor,
                    )
            },
        },
{
    lemma_gathered(readers, field, term, readers.len() as int);
}

/// Whether a segment has a term, and statistics of its field.
pub open spec fn is_measured(s: SegmentReader, field: Seq<char>, term: Seq<char>) -> bool {
    s.entry(field, term)->Ok_0 is Some && own_stats(s, field) is Some
}

proof fn lemma_least_average(
    readers: Seq<SegmentReader>,
    field: Seq<char>,
    term: Seq<char>,
    n: int,
) -> (l: int)
    requires
        0 <= n <= readers.len(),
        reader::gathered(readers, field, term, n) is Ok,
        reader::gathered(readers, field, term, n)->Ok_0.least_avg is Some,
    ensures
        0 <= l < n,
        is_measured(readers[l], field, term),
        reader::gathered(readers, field, term, n)->Ok_0.least_avg == Some(
            own_stats(readers[l], field)->Some_0.avg_length,
        ),
        forall|i: int|
            0 <= i < n && is_measured(#[trigger] readers[i], field, term) && !floats::is_nan(
                own_stats(readers[i], field)->Some_0.avg_length,
            ) ==> !floats::is_nan(own_stats(readers[l], field)->Some_0.avg_length)
                && floats::rank(own_stats(readers[l], field)->Some_0.avg_length)
                <= floats::rank(own_stats(readers[i], field)->Some_0.avg_length),
    decreases n,
{
    let g = reader::gathered(readers, field, term, n - 1)->Ok_0;
    if g.least_avg is Some {
        let l = lemma_least_average(readers, field, term, n - 1);
        let h = reader::gathered(readers, field, term, n)->Ok_0;
        if h.least_avg == g.least_avg {
            l
        } else {
            n - 1
        }
    } else {
        lemma_no_average(readers, field, term, n - 1);
        n - 1
    }
}

proof fn lemma_no_average(readers: Seq<SegmentReader>, field: Seq<char>, term: Seq<char>, n: int)
    requires
        0 <= n <= readers.len(),
        reader::gathered(readers, field, term, n) is Ok,
        reader::gathered(readers, field, term, n)->Ok_0.least_avg is None,
    ensures
        forall|i: int| 0 <= i < n ==> !is_measured(#[trigger] readers[i], field, term),
    decreases n,
{
    if n > 0 {
        lemma_no_average(readers, field, term, n - 1);
    }
}

/// Whether the average over all segments is at most that of segment `l`, both taken as
/// 32-bit numbers, and segment `l` has the least average of those that have the term.
pub open spec fn bounds_average<F: Fn(Number) -> Forms, M: Fn(&Vec<(u64, u64)>) -> u64>(
    forms: F,
    mean: M,
    readers: Seq<SegmentReader>,
    field: Seq<char>,
    term: Seq<char>,
    global: StatsView,
    l: int,
    a: u32,
    b: u32,
) -> bool {
    let least = own_stats(readers[l], field)->Some_0.avg_length;
    &&& 0 <= l < readers.len()
    &&& is_measured(readers[l], field, term)
    &&& forall|i: int|
        0 <= i < readers.len() && is_measured(#[trigger] readers[i], field, term)
            && !floats::is_nan(own_stats(readers[i], field)->Some_0.avg_length) ==> floats::rank(
            least,
        ) <= floats::rank(own_stats(readers[i], field)->Some_0.avg_length)
    &&& reader::is_combined(
        mean,
        field,
        with_stats(readers, field).map_values(|i: int| own_stats(readers[i], field)->Some_0),
        Some(global),
    )
    &&& numbers::gives_narrow(forms, Number::Float { bits: global.avg_length }, a)
    &&& numbers::gives_narrow(forms, Number::Float { bits: least }, b)
    &&& !floats::is_nan_32(a)
    &&& !floats::is_nan_32(b)
    &&& floats::rank_32(a) <= floats::rank_32(b)
}

/// A factor and blocks are given only where they bound scores over all segments: where the
/// average length over all segments is at most that of every segment that has the term.
pub proof fn lemma_factor_only_where_it_bounds<
    F: Fn(Number) -> Forms,
    M: Fn(&Vec<(u64, u64)>) -> u64,
>(
    forms: F,
    mean: M,
    readers: Seq<SegmentReader>,
    field: Seq<char>,
    term: Seq<char>,
    before: CacheManager,
    after: CacheManager,
    r: Result<Option<ReaderTermInfo>, LaurusError>,
)
    requires
        reader::term_answered(forms, mean, readers, field, term, before, after, r),
        r is Ok,
        r->Ok_0 is Some,
        r->Ok_0->Some_0.max_score_factor != 0 || r->Ok_0->Some_0.block_max@.len() > 0,
    ensures
        exists|global: StatsView, l: int, a: u32, b: u32| #[trigger]
            bounds_average(forms, mean, readers, field, term, global, l, a, b),
{
    let n = readers.len() as int;
    let g = reader::gathered(readers, field, term, n)->Ok_0;
    let parts = reader::stats_found(readers, field, n)->Ok_0;
    let key = dictionary::full_term(field, term);
    let (global, holds) = choose|global: Option<StatsView>, holds: bool| #[trigger]
        reader::bounds_checked(forms, mean, field, g.least_avg, parts, global, holds)
            && reader::says(r, field, term, reader::aggregated(g, holds)) && reader::is_kept(
            before,
            after,
            key,
            reader::aggregated(g, holds),
        );
    assert(holds);
    let least = g.least_avg->Some_0;
    let stats = global->Some_0;
    let (a, b) = choose|a: u32, b: u32|
        {
            &&& #[trigger] numbers::gives_narrow(forms, Number::Float { bits: stats.avg_length }, a)
            &&& #[trigger] numbers::gives_narrow(forms, Number::Float { bits: least }, b)
            &&& holds == floats::at_most_32(a, b)
        };
    let l = lemma_least_average(readers, field, term, n);
    lemma_stats_of_segments(readers, field, n);
    assert(bounds_average(forms, mean, readers, field, term, stats, l, a, b));
}

// ---------------------------------------------------------------------------
// Closing, and columns
// ---------------------------------------------------------------------------

/// A reader that was closed gives nothing more.
pub proof fn lemma_closed_reader_refuses<M: Fn(&Vec<(u64, u64)>) -> u64>(
    reader: InvertedIndexReader,
    id: u64,
    field: &str,
    mean: M,
    document: Result<Option<Document>, LaurusError>,
    ids: Result<Vec<u64>, LaurusError>,
    length: Result<Option<u32>, LaurusError>,
    stats: Result<Option<FieldStats>, LaurusError>,
    closed: bool,
)
    requires
        call_ensures(InvertedIndexReader::is_closed, (&reader,), closed),
        closed,
        call_ensures(InvertedIndexReader::document, (&reader, id), document),
        call_ensures(InvertedIndexReader::doc_ids, (&reader,), ids),
        call_ensures(InvertedIndexReader::field_length, (&reader, id, field), length),
        call_ensures(InvertedIndexReader::field_stats::<M>, (&reader, field, &mean), stats),
    ensures
        document == Err::<Option<Document>, LaurusError>(LaurusError::ReaderClosed),
        ids == Err::<Vec<u64>, LaurusError>(LaurusError::ReaderClosed),
        length == Err::<Option<u32>, LaurusError>(LaurusError::ReaderClosed),
        stats == Err::<Option<FieldStats>, LaurusError>(LaurusError::ReaderClosed),
{
}

/// A reader has a column of a field exactly where some segment has one, and has a document
/// as deleted exactly where some segment has it so.
pub proof fn lemma_some_segment_has(
    reader: InvertedIndexReader,
    field: &str,
    id: u64,
    columns: Seq<bool>,
    marks: Seq<Result<bool, LaurusError>>,
    column: bool,
    deleted: bool,
)
    requires
        columns.len() == reader.segments().len(),
        marks.len() == reader.segments().len(),
        forall|i: int|
            0 <= i < columns.len() ==> call_ensures(
                SegmentReader::has_doc_values,
                (&reader.segments()[i], field),
                #[trigger] columns[i],
            ),
        forall|i: int|
            0 <= i < marks.len() ==> call_ensures(
                SegmentReader::is_deleted,
                (&reader.segments()[i], id),
                #[trigger] marks[i],
            ),
        call_ensures(InvertedIndexReader::has_doc_values, (&reader, field), column),
        call_ensures(InvertedIndexReader::is_deleted, (&reader, id), deleted),
    ensures
        column <==> columns.contains(true),
        deleted <==> marks.contains(Ok::<bool, LaurusError>(true)),
{
    let segments = reader.segments();
    if column {
        let i = choose|i: int|
            0 <= i < segments.len() && reader::has_column(#[trigger] segments[i], field@);
        assert(columns[i]);
    }
    if columns.contains(true) {
        let i = choose|i: int| 0 <= i < columns.len() && columns[i] == true;
        assert(call_ensures(SegmentReader::has_doc_values, (&segments[i], field), columns[i]));
        assert(reader::has_column(segments[i], field@));
    }
    if deleted {
        let i = choose|i: int|
            0 <= i < segments.len() && reader::deletes(#[trigger] segments[i], id);
        assert(marks[i] == Ok::<bool, LaurusError>(true));
    }
    if marks.contains(Ok::<bool, LaurusError>(true)) {
        let i = choose|i: int| 0 <= i < marks.len() && marks[i] == Ok::<bool, LaurusError>(true);
        assert(call_ensures(SegmentReader::is_deleted, (&segments[i], id), marks[i]));
        assert(reader::deletes(segments[i], id));
    }
}

// ---------------------------------------------------------------------------
// Points
// ---------------------------------------------------------------------------

/// Whether a segment has this tree of a field.
pub open spec fn has_tree(s: SegmentReader, field: Seq<char>, t: BKDReader) -> bool {
    names::value_of(s.trees(), field) == Some(Ok::<BKDReader, LaurusError>(t))
}

proof fn lemma_trees_of_segments(readers: Seq<SegmentReader>, field: Seq<char>, n: int)
    requires
        0 <= n <= readers.len(),
        reader::trees_found(readers, field, n) is Ok,
    ensures
        forall|k: int| #![trigger reader::trees_found(readers, field, n)->Ok_0[k]]
            0 <= k < reader::trees_found(readers, field, n)->Ok_0.len() ==> some_has_tree(
                readers,
                field,
                n,
                reader::trees_found(readers, field, n)->Ok_0[k],
            ),
        forall|i: int, t: BKDReader|
            0 <= i < n && #[trigger] has_tree(readers[i], field, t) ==> reader::trees_found(
                readers,
                field,
                n,
            )->Ok_0.contains(t),
    decreases n,
{
    if n > 0 {
        lemma_trees_of_segments(readers, field, n - 1);
        let before = reader::trees_found(readers, field, n - 1)->Ok_0;
        let all = reader::trees_found(readers, field, n)->Ok_0;
        assert forall|k: int| #![trigger all[k]] 0 <= k < all.len() implies some_has_tree(
            readers,
            field,
            n,
            all[k],
        ) by {
            if k < before.len() {
                assert(all[k] == before[k]);
                let i = choose|i: int| 0 <= i < n - 1 && #[trigger] has_tree(
                    readers[i],
                    field,
                    before[k],
                );
                assert(has_tree(readers[i], field, all[k]));
            } else {
                assert(has_tree(readers[n - 1], field, all[k]));
            }
        }
        assert forall|i: int, t: BKDReader| 0 <= i < n && #[trigger] has_tree(
            readers[i],
            field,
            t,
        ) implies all.contains(t) by {
            if i < n - 1 {
                let k = choose|k: int| 0 <= k < before.len() && before[k] == t;
                assert(all[k] == t);
            } else {
                assert(all[before.len() as int] == t);
            }
        }
    }
}

/// Whether one of the first segments has this tree of a field.
pub open spec fn some_has_tree(
    readers: Seq<SegmentReader>,
    field: Seq<char>,
    n: int,
    t: BKDReader,
) -> bool {
    exists|i: int| 0 <= i < n && #[trigger] has_tree(readers[i], field, t)
}

/// Whether a segment has a document of its range deleted.
pub open spec fn deletes_in_range(s: SegmentReader, id: u64) -> bool {
    in_range(s, id) && s.gone()->Ok_0.contains(id)
}

proof fn lemma_gone_of_segments(readers: Seq<SegmentReader>, n: int, id: u64)
    requires
        0 <= n <= readers.len(),
        reader::gone_in(readers, n) is Ok,
    ensures
        reader::gone_in(readers, n)->Ok_0.contains(id) <==> exists|i: int|
            0 <= i < n && deletes_in_range(#[trigger] readers[i], id),
    decreases n,
{
    if n > 0 {
        lemma_gone_of_segments(readers, n - 1, id);
        if reader::gone_in(readers, n)->Ok_0.contains(id) {
            if !reader::gone_in(readers, n - 1)->Ok_0.contains(id) {
                assert(deletes_in_range(readers[n - 1], id));
            }
        }
    }
}

/// A search over the point trees of a field finds exactly the documents that the search of
/// some segment's tree finds, but for those that a segment has deleted in its range; each
/// once and in ascending order.
pub proof fn lemma_search_of_index(
    reader: InvertedIndexReader,
    field: &str,
    tree: DeletionFilteringBKDTree<MultiSegmentBKDTree<BKDReader>>,
    r: Result<Option<DeletionFilteringBKDTree<MultiSegmentBKDTree<BKDReader>>>, LaurusError>,
    mins: &[Option<u64>],
    maxs: &[Option<u64>],
    include_min: bool,
    include_max: bool,
    rs: Seq<Result<Vec<u64>, LaurusError>>,
    found: Result<Vec<u64>, LaurusError>,
)
    requires
        !reader.has_closed(),
        call_ensures(InvertedIndexReader::get_bkd_tree, (&reader, field), r),
        r is Ok,
        r->Ok_0 == Some(tree),
        rs.len() == reader.segments().len(),
        forall|i: int, t: BKDReader|
            0 <= i < rs.len() && #[trigger] has_tree(reader.segments()[i], field@, t) ==> rs[i]
                is Ok && call_ensures(
                BKDReader::range_search,
                (&t, mins, maxs, include_min, include_max),
                rs[i],
            ),
        call_ensures(
            DeletionFilteringBKDTree::<MultiSegmentBKDTree<BKDReader>>::range_search,
            (&tree, mins, maxs, include_min, include_max),
            found,
        ),
    ensures
        found is Ok,
        forall|j: int, k: int|
            0 <= j < k < found->Ok_0@.len() ==> (#[trigger] found->Ok_0@[j]) < (
            #[trigger] found->Ok_0@[k]),
        forall|id: u64| #[trigger]
            found->Ok_0@.contains(id) <==> some_finds(reader.segments(), field@, rs, id)
                && !some_deletes_in_range(reader.segments(), id),
{
    let readers = reader.segments();
    let n = readers.len() as int;
    let s = reader::trees_found(readers, field@, n)->Ok_0;
    let gone = reader::gone_in(readers, n)->Ok_0;
    let refs: Seq<&BKDReader> = Seq::new(s.len(), |k: int| &s[k]);
    let range = visitor::range_of(mins@, maxs@, include_min, include_max);
    lemma_trees_of_segments(readers, field@, n);
    let of = |k: int| choose|i: int| 0 <= i < n && #[trigger] has_tree(readers[i], field@, s[k]);
    let qs = Seq::new(s.len(), |k: int| rs[of(k)]);
    assert forall|k: int| 0 <= k < s.len() implies {
        let end = bkd_tree::walk::<RangeQueryVisitor>((#[trigger] refs[k]).tree(), range);
        &&& end.1 is Ok
        &&& qs[k] is Ok
        &&& sort::ascending_set_of(qs[k]->Ok_0@, end.0.hits)
    } by {
        assert(some_has_tree(readers, field@, n, s[k]));
        let i = of(k);
        assert(0 <= i < n && has_tree(readers[i], field@, s[k]));
        assert(qs[k] == rs[i]);
    }
    search_laws::lemma_chained_hits(refs, range, qs, s.len() as int);
    reader::lemma_chained_trees(s, refs, s.len() as int);
    let t = reader::chained_trees(s, s.len() as int);
    live_tree::lemma_search_live(t, range, gone);
    reveal(Seq::filter);
    assert(live_tree::live_state(range, gone) =~= range) by {
        assert(live_tree::live_ids(range.hits, gone) =~= range.hits);
    }
    let whole = bkd_tree::walk::<RangeQueryVisitor>(t, range);
    let end = bkd_tree::walk::<RangeQueryVisitor>(tree.tree(), range);
    let keep = |x: u64| !gone.contains(x);
    let hits = whole.0.hits;
    assert(end.0.hits == hits.filter(keep));
    assert forall|id: u64| #[trigger] found->Ok_0@.contains(id) <==> some_finds(
        readers,
        field@,
        rs,
        id,
    ) && !some_deletes_in_range(readers, id) by {
        lemma_gone_of_segments(readers, n, id);
        assert(found->Ok_0@.contains(id) <==> end.0.hits.contains(id));
        if hits.filter(keep).contains(id) {
            hits.lemma_filter_contains_rev(keep, id);
            let i = choose|i: int| 0 <= i < hits.filter(keep).len() && hits.filter(keep)[i] == id;
            hits.lemma_filter_pred(keep, i);
        }
        if hits.contains(id) && !gone.contains(id) {
            let i = choose|i: int| 0 <= i < hits.len() && hits[i] == id;
            hits.lemma_filter_contains(keep, i);
        }
        assert(hits.contains(id) <==> search_laws::some_has(qs, s.len() as int, id));
        if search_laws::some_has(qs, s.len() as int, id) {
            let k = choose|k: int|
                0 <= k < s.len() && (#[trigger] qs[k]) is Ok && qs[k]->Ok_0@.contains(id);
            assert(some_has_tree(readers, field@, n, s[k]));
            assert(finds(readers, field@, rs, of(k), id)) by {
                assert(has_tree(readers[of(k)], field@, s[k]));
            }
        }
        if some_finds(readers, field@, rs, id) {
            let i = choose|i: int| #[trigger] finds(readers, field@, rs, i, id);
            let t = choose|t: BKDReader| #[trigger] has_tree(readers[i], field@, t);
            assert(s.contains(t));
            let k = choose|k: int| 0 <= k < s.len() && s[k] == t;
            assert(some_has_tree(readers, field@, n, s[k]));
            let m = of(k);
            assert(has_tree(readers[m], field@, t));
            assert(call_ensures(
                BKDReader::range_search,
                (&t, mins, maxs, include_min, include_max),
                rs[i],
            ));
            assert(call_ensures(
                BKDReader::range_search,
                (&t, mins, maxs, include_min, include_max),
                rs[m],
            ));
            assert(qs[k] == rs[m]);
            let alone = bkd_tree::walk::<RangeQueryVisitor>(t.tree(), range);
            assert(rs[i]->Ok_0@.contains(id) <==> alone.0.hits.contains(id));
            assert(rs[m]->Ok_0@.contains(id) <==> alone.0.hits.contains(id));
            assert(qs[k]->Ok_0@.contains(id));
        }
    }
}

/// Whether the search of the tree of segment `i` finds a document.
pub open spec fn finds(
    readers: Seq<SegmentReader>,
    field: Seq<char>,
    rs: Seq<Result<Vec<u64>, LaurusError>>,
    i: int,
    id: u64,
) -> bool {
    &&& 0 <= i < readers.len()
    &&& exists|t: BKDReader| #[trigger] has_tree(readers[i], field, t)
    &&& rs[i]->Ok_0@.contains(id)
}

/// Whether the search of the tree of some segment finds a document.
pub open spec fn some_finds(
    readers: Seq<SegmentReader>,
    field: Seq<char>,
    rs: Seq<Result<Vec<u64>, LaurusError>>,
    id: u64,
) -> bool {
    exists|i: int| #[trigger] finds(readers, field, rs, i, id)
}

/// Whether some segment has a document of its range deleted.
pub open spec fn some_deletes_in_range(readers: Seq<SegmentReader>, id: u64) -> bool {
    exists|i: int| 0 <= i < readers.len() && deletes_in_range(#[trigger] readers[i], id)
}

// ---------------------------------------------------------------------------
// Values of columns, dictionaries and sizes
// ---------------------------------------------------------------------------

/// Whether the column of a field in a segment gives a document a value that holds `w`,
/// however often it is asked.
pub open spec fn surely_gives<C: Fn(&[u8]) -> Result<Vec<(u64, DataValue)>, LaurusError>>(
    decode: C,
    s: SegmentReader,
    field: Seq<char>,
    id: u64,
    w: DataValue,
) -> bool {
    &&& s.gone() is Ok
    &&& !s.gone()->Ok_0.contains(id)
    &&& s.columns() is Ok
    &&& forall|x: Result<Option<DataValue>, LaurusError>| #[trigger]
        segment_reader::column_value(decode, s.columns()->Ok_0, field, id, x) ==> x is Ok
            && x->Ok_0 is Some && x->Ok_0->Some_0@ == w@
}

/// Whether a segment has no value of a field for a document: the document is deleted, or
/// there is no column of the field.
pub open spec fn surely_lacks(s: SegmentReader, field: Seq<char>, id: u64) -> bool {
    &&& s.gone() is Ok
    &&& s.gone()->Ok_0.contains(id) || (s.columns() is Ok && !names::has_name(
        s.columns()->Ok_0.fields(),
        field,
    ))
}

/// The value of a document is that of the first segment that has one. Where a segment
/// gives a value and no segment before it has one, this is the value, whatever the segments
/// behind it have; where no segment has one, there is none.
pub proof fn lemma_value_of_first_segment<
    C: Fn(&[u8]) -> Result<Vec<(u64, DataValue)>, LaurusError>,
>(
    decode: C,
    reader: InvertedIndexReader,
    field: &str,
    id: u64,
    k: int,
    w: DataValue,
    r: Result<Option<DataValue>, LaurusError>,
)
    requires
        0 <= k <= reader.segments().len(),
        forall|i: int|
            0 <= i < k ==> surely_lacks(#[trigger] reader.segments()[i], field@, id),
        k < reader.segments().len() ==> surely_gives(
            decode,
            reader.segments()[k],
            field@,
            id,
            w,
        ),
        call_ensures(InvertedIndexReader::get_doc_value::<C>, (&reader, field, id, &decode), r),
    ensures
        k == reader.segments().len() ==> r == Ok::<Option<DataValue>, LaurusError>(None),
        k < reader.segments().len() ==> r is Ok && r->Ok_0 is Some && r->Ok_0->Some_0@ == w@,
{
    let readers = reader.segments();
    assert(reader::value_found(decode, readers, field@, id, r->Ok_0));
    assert forall|i: int, x: Result<Option<DataValue>, LaurusError>|
        0 <= i < k && #[trigger] reader::value_in(decode, readers[i], field@, id, x) implies x
        == Ok::<Option<DataValue>, LaurusError>(None) by {
        assert(surely_lacks(readers[i], field@, id));
    }
    match r->Ok_0 {
        Some(v) => {
            let j = choose|j: int|
                0 <= j < readers.len() && #[trigger] reader::first_value_at(
                    decode,
                    readers,
                    field@,
                    id,
                    j,
                    v,
                );
            let x = Ok::<Option<DataValue>, LaurusError>(Some(v));
            assert(reader::value_in(decode, readers[j], field@, id, x));
            assert(j >= k);
            if j > k {
                assert(reader::no_value_in(decode, readers[k], field@, id));
                let y = choose|y: Result<Option<DataValue>, LaurusError>| #[trigger]
                    reader::value_in(decode, readers[k], field@, id, y) && !(y is Ok
                        && y->Ok_0 is Some);
                assert(segment_reader::column_value(
                    decode,
                    readers[k].columns()->Ok_0,
                    field@,
                    id,
                    y,
                ));
            }
        },
        None => {
            if k < readers.len() {
                assert(reader::no_value_in(decode, readers[k], field@, id));
                let y = choose|y: Result<Option<DataValue>, LaurusError>| #[trigger]
                    reader::value_in(decode, readers[k], field@, id, y) && !(y is Ok
                        && y->Ok_0 is Some);
                assert(segment_reader::column_value(
                    decode,
                    readers[k].columns()->Ok_0,
                    field@,
                    id,
                    y,
                ));
            }
        },
    }
}

/// The dictionaries that segments have, in the order of the segments.
pub open spec fn own_dictionaries(readers: Seq<SegmentReader>) -> Seq<TermDictionary> {
    readers.filter(|s: SegmentReader| s.dictionary()->Ok_0 is Some).map_values(
        |s: SegmentReader| s.dictionary()->Ok_0->Some_0,
    )
}

proof fn lemma_dictionaries(readers: Seq<SegmentReader>, n: int)
    requires
        0 <= n <= readers.len(),
        forall|i: int| 0 <= i < n ==> (#[trigger] readers[i]).dictionary() is Ok,
    ensures
        reader::dictionaries(readers, n) == Ok::<Seq<TermDictionary>, LaurusError>(
            own_dictionaries(readers.take(n)),
        ),
    decreases n,
{
    reveal(Seq::filter);
    let has = |s: SegmentReader| s.dictionary()->Ok_0 is Some;
    let part = |s: SegmentReader| s.dictionary()->Ok_0->Some_0;
    if n > 0 {
        lemma_dictionaries(readers, n - 1);
        assert(readers[n - 1].dictionary() is Ok);
        assert(readers.take(n).drop_last() =~= readers.take(n - 1));
        assert(readers.take(n).last() == readers[n - 1]);
        let before = readers.take(n - 1).filter(has);
        assert(before.push(readers[n - 1]).map_values(part) =~= before.map_values(part).push(
            part(readers[n - 1]),
        ));
    } else {
        assert(own_dictionaries(readers.take(n)) =~= Seq::empty());
    }
}

proof fn lemma_fault_stays(readers: Seq<SegmentReader>, k: int, n: int)
    requires
        0 <= k < n <= readers.len(),
        forall|i: int| 0 <= i < k ==> (#[trigger] readers[i]).dictionary() is Ok,
        readers[k].dictionary() is Err,
    ensures
        reader::dictionaries(readers, n) == Err::<Seq<TermDictionary>, LaurusError>(
            readers[k].dictionary()->Err_0,
        ),
    decreases n,
{
    if n == k + 1 {
        lemma_dictionaries(readers, k);
    } else {
        lemma_fault_stays(readers, k, n - 1);
    }
}

/// A reader gives the dictionaries of its segments, one behind another, and none where no
/// segment has one; the first segment whose dictionary cannot be had is the reason why it
/// gives no list. Where `k` is not the number of a segment, all dictionaries can be had.
pub proof fn lemma_dictionaries_of_segments(
    reader: InvertedIndexReader,
    k: int,
    r: Result<Option<Vec<&TermDictionary>>, LaurusError>,
)
    requires
        0 <= k <= reader.segments().len(),
        forall|i: int| 0 <= i < k ==> (#[trigger] reader.segments()[i]).dictionary() is Ok,
        k < reader.segments().len() ==> reader.segments()[k].dictionary() is Err,
        call_ensures(InvertedIndexReader::terms, (&reader,), r),
    ensures
        k < reader.segments().len() ==> r is Err && r->Err_0
            == reader.segments()[k].dictionary()->Err_0,
        k == reader.segments().len() ==> r is Ok && (r->Ok_0 is None <==> own_dictionaries(
            reader.segments(),
        ).len() == 0),
        k == reader.segments().len() && r->Ok_0 is Some ==> r->Ok_0->Some_0@.map_values(
            |d: &TermDictionary| *d,
        ) == own_dictionaries(reader.segments()),
{
    let readers = reader.segments();
    let n = readers.len() as int;
    if k < n {
        lemma_fault_stays(readers, k, n);
    } else {
        lemma_dictionaries(readers, n);
        assert(readers.take(n) =~= readers);
        let all = own_dictionaries(readers);
        if all.len() > 0 {
            let list = r->Ok_0->Some_0@;
            assert(reader::are_dictionaries(list, all));
            assert(list.map_values(|d: &TermDictionary| *d) =~= all);
        }
    }
}

proof fn lemma_sizes_of_segments(readers: Seq<SegmentReader>, n: int)
    requires
        0 <= n <= readers.len(),
    ensures
        reader::total_docs(readers, n) == sum(
            readers.take(n).map_values(|s: SegmentReader| s.about().doc_count as nat),
        ),
    decreases n,
{
    let size = |s: SegmentReader| s.about().doc_count as nat;
    if n > 0 {
        lemma_sizes_of_segments(readers, n - 1);
        assert(readers.take(n).map_values(size).drop_last() =~= readers.take(n - 1).map_values(
            size,
        ));
    }
}

/// The size of an index is that of its segments together, deleted documents counted in.
pub proof fn lemma_size_of_index(reader: InvertedIndexReader, r: u64)
    requires
        reader.wf(),
        call_ensures(InvertedIndexReader::max_doc, (&reader,), r),
    ensures
        r == sum(
            reader.segments().map_values(|s: SegmentReader| s.about().doc_count as nat),
        ),
{
    let readers = reader.segments();
    lemma_sizes_of_segments(readers, readers.len() as int);
    assert(readers.take(readers.len() as int) =~= readers);
}

/// Whether all parts of a segment that are loaded ahead can be had.
pub open spec fn can_be_loaded(s: SegmentReader) -> bool {
    s.dictionary() is Ok && s.documents() is Ok && s.columns() is Ok && s.gone() is Ok
}

/// Whether this is why a part of a segment cannot be had.
pub open spec fn is_fault_of(s: SegmentReader, e: LaurusError) -> bool {
    ||| s.dictionary() is Err && s.dictionary()->Err_0 == e
    ||| s.documents() is Err && s.documents()->Err_0 == e
    ||| s.columns() is Err && s.columns()->Err_0 == e
    ||| s.gone() is Err && s.gone()->Err_0 == e
}

/// A reader is made of its segments as they come, open and with nothing cached. Where the
/// segments are loaded ahead, the first of them of which a part cannot be had prevents it;
/// else nothing does. Where `k` is not the number of a segment, all parts can be had.
pub proof fn lemma_made_of_segments(
    segments: Vec<SegmentReader>,
    config: InvertedIndexReaderConfig,
    k: int,
    r: Result<InvertedIndexReader, LaurusError>,
)
    requires
        0 <= k <= segments@.len(),
        forall|i: int| 0 <= i < k ==> can_be_loaded(#[trigger] segments@[i]),
        k < segments@.len() ==> !can_be_loaded(segments@[k]),
        call_ensures(InvertedIndexReader::new, (segments, config), r),
    ensures
        r is Err <==> config.preload_segments && k < segments@.len(),
        r is Err ==> is_fault_of(segments@[k], r->Err_0),
        r is Ok ==> {
            &&& r->Ok_0.segments() == segments@
            &&& !r->Ok_0.has_closed()
            &&& r->Ok_0.cache().entries().len() == 0
        },
{
    let errors = segments@.map_values(|s: SegmentReader| reader::load_error(s));
    let found = lemma_first(errors);
    assert forall|i: int| 0 <= i < errors.len() implies ((#[trigger] errors[i]) is None
        <==> can_be_loaded(segments@[i])) by {
        assert(errors[i] == reader::load_error(segments@[i]));
    }
    if found < k {
        assert(can_be_loaded(segments@[found]));
        assert(errors[found] is None);
    }
    if k < found {
        assert(errors[k] is None);
    }
    if k < segments@.len() {
        assert(errors[k] == reader::load_error(segments@[k]));
    }
}

} // verus!
