//! What walks over postings show, and which postings a term has over several segments.

use vstd::prelude::*;

use crate::analyzed::{AnalyzedTerm, TermView};
use crate::data::{DataValue, FieldsView};
use crate::error::LaurusError;
use crate::names;
use crate::posting;
use crate::posting::{DecodedPostingList, Posting, PostingIterator, PostingView};
use crate::posting_iterator;
use crate::posting_iterator::{InvertedIndexPostingIterator, Move, Walk};
use crate::reader;
use crate::segment::SegmentInfo;
use crate::segment_reader;
use crate::segment_reader::{PostingFormat, SegmentReader};
use crate::sort;

verus! {

// ---------------------------------------------------------------------------
// Walks
// ---------------------------------------------------------------------------

/// What is left from a target on starts with the first document that is at least the
/// target: all before it are less.
pub proof fn lemma_from_target(s: Seq<PostingView>, target: u64) -> (k: int)
    ensures
        0 <= k <= s.len(),
        posting::from_target(s, target) == s.skip(k),
        forall|i: int| 0 <= i < k ==> (#[trigger] s[i]).doc_id < target,
        k < s.len() ==> s[k].doc_id >= target,
    decreases s.len(),
{
    if s.len() == 0 || s[0].doc_id >= target {
        assert(s.skip(0) =~= s);
        0
    } else {
        let rest = s.drop_first();
        let k = lemma_from_target(rest, target);
        assert(rest.skip(k) =~= s.skip(k + 1));
        assert forall|i: int| 0 <= i < k + 1 implies (#[trigger] s[i]).doc_id < target by {
            if i > 0 {
                assert(rest[i - 1] == s[i]);
            }
        }
        if k + 1 < s.len() {
            assert(rest[k] == s[k + 1]);
        }
        k + 1
    }
}

/// A walk over postings that has not begun.
pub open spec fn fresh(postings: Seq<PostingView>) -> Walk {
    Walk { postings, place: 0, begun: false }
}

/// So many calls for the next posting.
pub open spec fn nexts(n: nat) -> Seq<Move> {
    Seq::new(n, |i: int| Move::Next)
}

proof fn lemma_stepping(postings: Seq<PostingView>, n: nat)
    requires
        postings.len() > 0,
    ensures
        ({
            let w = fresh(postings).after(nexts(n));
            &&& w.postings == postings
            &&& w.begun == (n > 0)
            &&& w.place == if n == 0 {
                0
            } else if n - 1 < postings.len() {
                n - 1
            } else {
                postings.len() as int
            }
        }),
    decreases n,
{
    let moves = nexts(n);
    if n > 0 {
        lemma_stepping(postings, (n - 1) as nat);
        assert(moves.drop_last() =~= nexts((n - 1) as nat));
        assert(moves.last() == Move::Next);
    }
}

/// A walk that is asked for the next posting again and again shows every posting once, in
/// their order, and then no more: after `n` such calls it stands at posting `n - 1`.
pub proof fn lemma_walk_shows_each(postings: Seq<PostingView>, n: nat)
    requires
        n > 0,
    ensures
        ({
            let a = fresh(postings).after(nexts(n)).answer();
            &&& a.found <==> n <= postings.len()
            &&& a.found ==> a.doc_id == postings[n - 1].doc_id && a.term_freq == postings[n
                - 1].frequency && a.positions == postings[n - 1].positions
            &&& !a.found ==> a.doc_id == u64::MAX && a.term_freq == 0 && a.positions.len() == 0
            &&& a.cost == postings.len()
        }),
{
    if postings.len() > 0 {
        lemma_stepping(postings, n);
    } else {
        lemma_no_steps(postings, n);
    }
}

proof fn lemma_no_steps(postings: Seq<PostingView>, n: nat)
    requires
        postings.len() == 0,
    ensures
        fresh(postings).after(nexts(n)) == fresh(postings),
    decreases n,
{
    let moves = nexts(n);
    if n > 0 {
        lemma_no_steps(postings, (n - 1) as nat);
        assert(moves.drop_last() =~= nexts((n - 1) as nat));
        assert(moves.last() == Move::Next);
    }
}

/// An iterator over postings has exactly these ahead: as many, in their order, each with
/// its document, its frequency and its positions, as long as documents fit in 32 bits.
pub proof fn lemma_iterator_shows_postings(
    postings: Vec<Posting>,
    it: InvertedIndexPostingIterator,
    i: int,
)
    requires
        call_ensures(InvertedIndexPostingIterator::new, (postings,), it),
        0 <= i < postings@.len(),
        postings@[i].doc_id <= u32::MAX,
    ensures
        it.ahead().len() == postings@.len(),
        it.ahead()[i].doc_id == postings@[i].doc_id,
        it.ahead()[i].frequency == postings@[i].frequency,
        match postings@[i].positions {
            Some(p) => it.ahead()[i].positions.len() == p@.len() && forall|k: int|
                0 <= k < p@.len() ==> #[trigger] it.ahead()[i].positions[k] == p@[k],
            None => it.ahead()[i].positions.len() == 0,
        },
{
    assert(it.ahead()[i] == postings@[i].shown());
}

// ---------------------------------------------------------------------------
// Scans
// ---------------------------------------------------------------------------

/// The positions of the terms that have this text.
pub open spec fn places_of(terms: Seq<TermView>, term: Seq<char>) -> Seq<u32> {
    terms.filter(|t: TermView| t.term == term).map_values(|t: TermView| t.position)
}

proof fn lemma_positions_in(terms: Seq<TermView>, term: Seq<char>)
    ensures
        segment_reader::positions_in(terms, term) == places_of(terms, term),
    decreases terms.len(),
{
    reveal(Seq::filter);
    let with = |t: TermView| t.term == term;
    let place = |t: TermView| t.position;
    if terms.len() > 0 {
        let front = terms.drop_last();
        lemma_positions_in(front, term);
        if terms.last().term == term {
            assert(front.filter(with).push(terms.last()).map_values(place) =~= front.filter(
                with,
            ).map_values(place).push(terms.last().position));
        }
    } else {
        assert(places_of(terms, term) =~= Seq::empty());
    }
}

/// Whether a posting is that of a document in a scan: the document is not deleted and has
/// a value of the field, and the posting has the positions of the term among the terms of
/// that value.
pub open spec fn is_scanned<N: Fn(&str, &DataValue) -> Result<Vec<AnalyzedTerm>, LaurusError>>(
    analyze: N,
    docs: Map<u64, FieldsView>,
    gone: Set<u64>,
    field: Seq<char>,
    term: Seq<char>,
    id: u64,
    terms: Seq<TermView>,
    p: PostingView,
) -> bool {
    let places = places_of(terms, term);
    &&& docs.contains_key(id)
    &&& !gone.contains(id)
    &&& names::value_of(docs[id], field) is Some
    &&& segment_reader::analyzes(
        analyze,
        field,
        names::value_of(docs[id], field)->Some_0,
        Ok(terms),
    )
    &&& places.len() > 0
    &&& p.doc_id == id
    &&& p.positions.len() == places.len()
    &&& forall|i: int| 0 <= i < places.len() ==> #[trigger] p.positions[i] == places[i]
    &&& places.len() <= u32::MAX ==> p.frequency == places.len()
}

/// Whether a posting is that of its document in a scan.
pub open spec fn is_scanned_posting<
    N: Fn(&str, &DataValue) -> Result<Vec<AnalyzedTerm>, LaurusError>,
>(
    analyze: N,
    docs: Map<u64, FieldsView>,
    gone: Set<u64>,
    field: Seq<char>,
    term: Seq<char>,
    p: PostingView,
) -> bool {
    exists|terms: Seq<TermView>| #[trigger]
        is_scanned(analyze, docs, gone, field, term, p.doc_id, terms, p)
}

/// Whether some reading of a document that is not deleted does not have the term.
pub open spec fn is_without<N: Fn(&str, &DataValue) -> Result<Vec<AnalyzedTerm>, LaurusError>>(
    analyze: N,
    docs: Map<u64, FieldsView>,
    field: Seq<char>,
    term: Seq<char>,
    id: u64,
) -> bool {
    match names::value_of(docs[id], field) {
        None => true,
        Some(v) => exists|terms: Seq<TermView>| #[trigger]
            segment_reader::analyzes(analyze, field, v, Ok(terms)) && places_of(terms, term).len()
                == 0,
    }
}

/// Where a posting stands behind those of lower documents.
proof fn lemma_present_at<T>(outs: Seq<Option<T>>, k: int) -> (i: int)
    requires
        0 <= k < segment_reader::present(outs).len(),
    ensures
        0 <= i < outs.len(),
        outs[i] == Some(segment_reader::present(outs)[k]),
        k == segment_reader::present(outs.take(i)).len(),
    decreases outs.len(),
{
    let front = outs.drop_last();
    let before = segment_reader::present(front);
    if k < before.len() {
        let i = lemma_present_at(front, k);
        assert(front.take(i) =~= outs.take(i));
        i
    } else {
        assert(outs.take(outs.len() - 1) =~= front);
        outs.len() - 1
    }
}

proof fn lemma_present_has<T>(outs: Seq<Option<T>>, i: int) -> (k: int)
    requires
        0 <= i < outs.len(),
        outs[i] is Some,
    ensures
        0 <= k < segment_reader::present(outs).len(),
        segment_reader::present(outs)[k] == outs[i]->Some_0,
    decreases outs.len(),
{
    let front = outs.drop_last();
    if i < front.len() {
        lemma_present_has(front, i)
    } else {
        segment_reader::present(front).len() as int
    }
}

proof fn lemma_present_grows<T>(outs: Seq<Option<T>>, i: int, j: int)
    requires
        0 <= i <= j <= outs.len(),
    ensures
        segment_reader::present(outs.take(i)).len() <= segment_reader::present(outs.take(j)).len(),
    decreases j,
{
    if i < j {
        lemma_present_grows(outs, i, j - 1);
        assert(outs.take(j).drop_last() =~= outs.take(j - 1));
    }
}

/// A scan of stored documents finds the documents that have the term, each once and in
/// ascending order, with the positions that the term has in them; and it leaves out no
/// document that is there, is not deleted and has the term.
pub proof fn lemma_scan_finds_documents<
    N: Fn(&str, &DataValue) -> Result<Vec<AnalyzedTerm>, LaurusError>,
>(
    analyze: N,
    docs: Map<u64, FieldsView>,
    gone: Set<u64>,
    field: Seq<char>,
    term: Seq<char>,
    found: Seq<PostingView>,
)
    requires
        segment_reader::scan_found(analyze, docs, gone, field, term, found),
        forall|id: u64| #[trigger] docs.contains_key(id) ==> id <= u32::MAX,
    ensures
        forall|k: int|
            0 <= k < found.len() ==> is_scanned_posting(
                analyze,
                docs,
                gone,
                field,
                term,
                #[trigger] found[k],
            ),
        forall|j: int, k: int|
            0 <= j < k < found.len() ==> (#[trigger] found[j]).doc_id < (
            #[trigger] found[k]).doc_id,
        forall|id: u64| #[trigger]
            docs.contains_key(id) && !gone.contains(id) ==> is_without(
                analyze,
                docs,
                field,
                term,
                id,
            ) || exists|k: int| 0 <= k < found.len() && (#[trigger] found[k]).doc_id == id,
{
    let (ids, outs) = choose|ids: Seq<u64>, outs: Seq<Option<PostingView>>|
        {
            &&& sort::ascends(ids)
            &&& ids.to_set() == docs.dom()
            &&& #[trigger] segment_reader::scan_finds_each(
                analyze,
                docs,
                gone,
                field,
                term,
                ids,
                outs,
            )
            &&& outs.len() == ids.len()
            &&& found == segment_reader::present(outs)
        };
    assert forall|k: int| 0 <= k < found.len() implies is_scanned_posting(
        analyze,
        docs,
        gone,
        field,
        term,
        #[trigger] found[k],
    ) by {
        let i = lemma_present_at(outs, k);
        let terms = lemma_one_scan(analyze, docs, gone, field, term, ids, i, found[k]);
        assert(is_scanned(analyze, docs, gone, field, term, found[k].doc_id, terms, found[k]));
    }
    assert forall|j: int, k: int| 0 <= j < k < found.len() implies (#[trigger] found[j]).doc_id < (
    #[trigger] found[k]).doc_id by {
        let a = lemma_present_at(outs, j);
        let b = lemma_present_at(outs, k);
        let _ = lemma_one_scan(analyze, docs, gone, field, term, ids, a, found[j]);
        let _ = lemma_one_scan(analyze, docs, gone, field, term, ids, b, found[k]);
        if b <= a {
            lemma_present_grows(outs, b, a);
        }
    }
    assert forall|id: u64| #[trigger] docs.contains_key(id) && !gone.contains(id) implies is_without(
        analyze,
        docs,
        field,
        term,
        id,
    ) || exists|k: int| 0 <= k < found.len() && (#[trigger] found[k]).doc_id == id by {
        assert(ids.to_set().contains(id));
        let i = choose|i: int| 0 <= i < ids.len() && ids[i] == id;
        assert(segment_reader::scan_finds(analyze, docs, gone, field, term, ids[i], outs[i]));
        match outs[i] {
            Some(p) => {
                let k = lemma_present_has(outs, i);
                let _ = lemma_one_scan(analyze, docs, gone, field, term, ids, i, p);
                assert(found[k].doc_id == id);
            },
            None => {
                if let Some(v) = names::value_of(docs[id], field) {
                    let t = choose|t: Result<Seq<TermView>, LaurusError>| #[trigger]
                        segment_reader::analyzes(analyze, field, v, t) && Ok::<
                            Option<PostingView>,
                            LaurusError,
                        >(None) == match t {
                            Err(e) => Err::<Option<PostingView>, LaurusError>(e),
                            Ok(terms) => {
                                let p = segment_reader::positions_in(terms, term);
                                if p.len() == 0 {
                                    Ok(None)
                                } else {
                                    Ok(
                                        Some(
                                            PostingView {
                                                doc_id: posting::narrowed(id) as u64,
                                                frequency: (p.len() as u32) as u64,
                                                positions: posting::widened(p),
                                            },
                                        ),
                                    )
                                }
                            },
                        };
                    lemma_positions_in(t->Ok_0, term);
                    assert(segment_reader::analyzes(analyze, field, v, Ok(t->Ok_0)));
                }
            },
        }
    }
}

proof fn lemma_one_scan<N: Fn(&str, &DataValue) -> Result<Vec<AnalyzedTerm>, LaurusError>>(
    analyze: N,
    docs: Map<u64, FieldsView>,
    gone: Set<u64>,
    field: Seq<char>,
    term: Seq<char>,
    ids: Seq<u64>,
    i: int,
    p: PostingView,
) -> (terms: Seq<TermView>)
    requires
        0 <= i < ids.len(),
        ids.to_set() == docs.dom(),
        segment_reader::scan_finds(analyze, docs, gone, field, term, ids[i], Some(p)),
        forall|id: u64| #[trigger] docs.contains_key(id) ==> id <= u32::MAX,
    ensures
        p.doc_id == ids[i],
        is_scanned(analyze, docs, gone, field, term, ids[i], terms, p),
{
    let id = ids[i];
    assert(ids.to_set().contains(id));
    assert(docs.contains_key(id));
    let v = names::value_of(docs[id], field)->Some_0;
    let t = choose|t: Result<Seq<TermView>, LaurusError>| #[trigger]
        segment_reader::analyzes(analyze, field, v, t) && Ok::<Option<PostingView>, LaurusError>(
            Some(p),
        ) == match t {
            Err(e) => Err::<Option<PostingView>, LaurusError>(e),
            Ok(terms) => {
                let p = segment_reader::positions_in(terms, term);
                if p.len() == 0 {
                    Ok(None)
                } else {
                    Ok(
                        Some(
                            PostingView {
                                doc_id: posting::narrowed(id) as u64,
                                frequency: (p.len() as u32) as u64,
                                positions: posting::widened(p),
                            },
                        ),
                    )
                }
            },
        };
    let terms = t->Ok_0;
    lemma_positions_in(terms, term);
    let places = places_of(terms, term);
    assert forall|k: int| 0 <= k < places.len() implies #[trigger] p.positions[k] == places[k] by {}
    terms
}

// ---------------------------------------------------------------------------
// Several segments
// ---------------------------------------------------------------------------

/// How often the lists of segments have a posting.
pub open spec fn times_in(outs: Seq<Option<Seq<PostingView>>>, p: PostingView) -> nat
    decreases outs.len(),
{
    if outs.len() == 0 {
        0
    } else {
        times_in(outs.drop_last(), p) + match outs.last() {
            Some(list) => list.to_multiset().count(p),
            None => 0,
        }
    }
}

proof fn lemma_times_in(outs: Seq<Option<Seq<PostingView>>>, p: PostingView)
    ensures
        posting_iterator::stream_count(segment_reader::present(outs), p) == times_in(outs, p),
    decreases outs.len(),
{
    if outs.len() > 0 {
        lemma_times_in(outs.drop_last(), p);
        if outs.last() is Some {
            assert(segment_reader::present(outs).drop_last() =~= segment_reader::present(
                outs.drop_last(),
            ));
        }
    }
}

/// The postings of a term over all segments are those of the segments: there are none
/// exactly where no segment has any, every posting is there as often as the segments have
/// it, and their documents ascend where those of every segment do.
pub proof fn lemma_postings_over_segments<
    D: Fn(&SegmentInfo, u64, PostingFormat) -> Result<DecodedPostingList, LaurusError>,
    N: Fn(&str, &DataValue) -> Result<Vec<AnalyzedTerm>, LaurusError>,
>(
    decode: D,
    analyze: N,
    readers: Seq<SegmentReader>,
    field: Seq<char>,
    term: Seq<char>,
    found: Option<(Seq<PostingView>, Seq<nat>)>,
) -> (outs: Seq<Option<Seq<PostingView>>>)
    requires
        reader::postings_found(decode, analyze, readers, field, term, found),
    ensures
        outs.len() == readers.len(),
        forall|i: int|
            0 <= i < outs.len() ==> reader::postings_are(
                decode,
                analyze,
                readers[i],
                field,
                term,
                #[trigger] outs[i],
            ),
        found is None <==> forall|i: int| 0 <= i < outs.len() ==> (#[trigger] outs[i]) is None,
        found is Some ==> forall|p: PostingView|
            (#[trigger] found->Some_0.0.to_multiset().count(p)) == times_in(outs, p),
        found is Some && (forall|i: int|
            0 <= i < outs.len() && (#[trigger] outs[i]) is Some ==> posting::docs_ascend(
                outs[i]->Some_0,
            )) ==> posting::docs_ascend(found->Some_0.0),
{
    let outs = choose|outs: Seq<Option<Seq<PostingView>>>| #[trigger]
        reader::postings_each(decode, analyze, readers, field, term, outs) && outs.len()
            == readers.len() && found == reader::combined_postings(segment_reader::present(outs));
    let lists = segment_reader::present(outs);
    assert forall|k: int| 0 <= k < lists.len() implies (#[trigger] lists[k]).len() > 0 by {
        let i = lemma_present_at(outs, k);
        assert(reader::postings_are(decode, analyze, readers[i], field, term, outs[i]));
    }
    assert(posting_iterator::streams_open(lists));
    if found is None {
        assert forall|i: int| 0 <= i < outs.len() implies (#[trigger] outs[i]) is None by {
            if outs[i] is Some {
                let _ = lemma_present_has(outs, i);
            }
        }
    } else {
        let i = lemma_present_at(outs, 0);
        assert(outs[i] is Some);
        let all = found->Some_0.0;
        posting_iterator::lemma_merged_holds(lists);
        assert forall|p: PostingView| (#[trigger] all.to_multiset().count(p)) == times_in(outs, p) by {
            lemma_times_in(outs, p);
            if lists.len() == 1 {
                assert(lists.drop_last().len() == 0);
                assert(posting_iterator::stream_count(lists, p)
                    == posting_iterator::stream_count(lists.drop_last(), p)
                    + lists.last().to_multiset().count(p));
                assert(lists.last() == lists[0]);
            } else {
                assert(posting_iterator::merged(lists).to_multiset().count(p)
                    == posting_iterator::stream_count(lists, p));
            }
        }
        if forall|i: int|
            0 <= i < outs.len() && (#[trigger] outs[i]) is Some ==> posting::docs_ascend(
                outs[i]->Some_0,
            ) {
            assert forall|k: int| 0 <= k < lists.len() implies posting::docs_ascend(
                #[trigger] lists[k],
            ) by {
                let i = lemma_present_at(outs, k);
                assert(outs[i] is Some);
            }
            if lists.len() > 1 {
                posting_iterator::lemma_merged_ascends(lists);
            }
        }
    }
    outs
}

} // verus!
