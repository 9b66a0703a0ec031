//! What a document keeps of a segment when it is carried over to another: the positions of
//! its terms, its points and its lengths.

use vstd::prelude::*;

use crate::analyzed;
use crate::analyzed::{AnalyzedDocument, AnalyzedTerm, TermView};
use crate::bkd_tree;
use crate::bkd_tree::{BKDTree, Tree};
use crate::data;
use crate::data::DataValue;
use crate::dictionary;
use crate::error::LaurusError;
use crate::merge_engine;
use crate::merge_engine::{MergeConfig, PendingMerge};
use crate::merge_laws;
use crate::merging;
use crate::merging::MergeSource;
use crate::names;
use crate::parser;
use crate::posting::{DecodedPostingList, PostingView};
use crate::reader;
use crate::replay;
use crate::segment::SegmentInfo;
use crate::segment_reader;
use crate::segment_reader::{PostingFormat, SegmentReader};
use crate::visitor;
use crate::visitor::CollectPointsVisitor;

verus! {

// ---------------------------------------------------------------------------
// Postings
// ---------------------------------------------------------------------------

/// The postings of a document.
pub open spec fn of_document(list: Option<Seq<PostingView>>, id: u64) -> Seq<PostingView> {
    match list {
        Some(l) => l.filter(|p: PostingView| p.doc_id == id),
        None => Seq::empty(),
    }
}

/// The positions of postings, one posting behind another; zero for one that keeps none.
pub open spec fn positions_of(ps: Seq<PostingView>) -> Seq<u64>
    decreases ps.len(),
{
    if ps.len() == 0 {
        Seq::empty()
    } else {
        positions_of(ps.drop_last()) + if ps.last().positions.len() == 0 {
            seq![0u64]
        } else {
            ps.last().positions
        }
    }
}

/// The frequency that goes with each of the positions of postings.
pub open spec fn frequencies_of(ps: Seq<PostingView>) -> Seq<u64>
    decreases ps.len(),
{
    if ps.len() == 0 {
        Seq::empty()
    } else {
        let places = if ps.last().positions.len() == 0 {
            1nat
        } else {
            ps.last().positions.len()
        };
        frequencies_of(ps.drop_last()) + Seq::new(places, |i: int| ps.last().frequency)
    }
}

/// The terms of a field of a document that have this text.
pub open spec fn terms_with(a: AnalyzedDocument, field: Seq<char>, term: Seq<char>) -> Seq<
    TermView,
> {
    match parser::terms_in(a, field) {
        Some(ts) => ts.filter(|t: TermView| t.term == term),
        None => Seq::empty(),
    }
}

/// Whether these are the postings of a term in a segment: there are none where the
/// dictionary does not have the term.
pub open spec fn are_postings<
    D: Fn(&SegmentInfo, u64, PostingFormat) -> Result<DecodedPostingList, LaurusError>,
    N: Fn(&str, &DataValue) -> Result<Vec<AnalyzedTerm>, LaurusError>,
>(
    decode: D,
    analyze: N,
    reader: SegmentReader,
    field: Seq<char>,
    term: Seq<char>,
    list: Option<Seq<PostingView>>,
) -> bool {
    if replay::reader_keys(reader).contains(field + seq![':'] + term) {
        reader::postings_are(decode, analyze, reader, field, term, list)
    } else {
        list is None
    }
}

/// Whether terms stand exactly where postings stand, in their order, and are as frequent.
pub open spec fn stand_as(found: Seq<TermView>, ps: Seq<PostingView>) -> bool {
    &&& found.len() == positions_of(ps).len()
    &&& found.len() == frequencies_of(ps).len()
    &&& forall|i: int| #![trigger found[i]]
        0 <= i < found.len() ==> found[i].position == positions_of(ps)[i] && found[i].frequency
            == frequencies_of(ps)[i] && found[i].offset == (0usize, 0usize)
}

/// Whether the numbers of a posting fit in 32 bits.
pub open spec fn is_narrow(p: PostingView) -> bool {
    &&& p.frequency <= u32::MAX
    &&& forall|i: int| 0 <= i < p.positions.len() ==> #[trigger] p.positions[i] <= u32::MAX
}

proof fn lemma_present_narrow(outs: Seq<Option<PostingView>>)
    requires
        forall|i: int| 0 <= i < outs.len() ==> ((#[trigger] outs[i]) matches Some(p) ==> is_narrow(p)),
    ensures
        forall|k: int|
            0 <= k < segment_reader::present(outs).len() ==> is_narrow(
                #[trigger] segment_reader::present(outs)[k],
            ),
    decreases outs.len(),
{
    if outs.len() > 0 {
        let front = outs.drop_last();
        assert forall|i: int| 0 <= i < front.len() implies ((#[trigger] front[i]) matches Some(p)
            ==> is_narrow(p)) by {
            assert(front[i] == outs[i]);
        }
        lemma_present_narrow(front);
        let before = segment_reader::present(front);
        let all = segment_reader::present(outs);
        assert(outs[outs.len() - 1] == outs.last());
        assert forall|k: int| 0 <= k < all.len() implies is_narrow(#[trigger] all[k]) by {
            if k < before.len() {
                assert(all[k] == before[k]);
            }
        }
    }
}

proof fn lemma_postings_narrow<
    D: Fn(&SegmentInfo, u64, PostingFormat) -> Result<DecodedPostingList, LaurusError>,
    N: Fn(&str, &DataValue) -> Result<Vec<AnalyzedTerm>, LaurusError>,
>(
    decode: D,
    analyze: N,
    reader: SegmentReader,
    field: Seq<char>,
    term: Seq<char>,
    list: Seq<PostingView>,
    k: int,
)
    requires
        reader::postings_are(decode, analyze, reader, field, term, Some(list)),
        0 <= k < list.len(),
    ensures
        is_narrow(list[k]),
{
    if reader.is_indexed() {
        let d = reader.dictionary()->Ok_0->Some_0;
        let info = d.entry(field, term)->Some_0;
        let l = choose|l: Result<DecodedPostingList, LaurusError>| #[trigger]
            segment_reader::decoded_as(decode, reader.about(), info, d.posting_format_version, l)
                && Ok::<Option<Seq<PostingView>>, LaurusError>(Some(list)) == match l {
                Err(e) => Err::<Option<Seq<PostingView>>, LaurusError>(e),
                Ok(l) => match reader.gone() {
                    Err(e) => Err(e),
                    Ok(g) => {
                        let live = segment_reader::live_postings(l.postings(), g);
                        if live.len() == 0 {
                            Ok(None)
                        } else {
                            Ok(Some(live))
                        }
                    },
                },
            };
        let all = l->Ok_0.postings();
        let gone = reader.gone()->Ok_0;
        let live = |p: PostingView| !gone.contains(p.doc_id);
        assert(list == all.filter(live));
        assert(all.filter(live).contains(list[k]));
        all.lemma_filter_contains_rev(live, list[k]);
        let i = choose|i: int| 0 <= i < all.len() && all[i] == list[k];
        assert(all[i] == l->Ok_0.posting(i));
    } else {
        let docs = reader.documents()->Ok_0;
        let gone = reader.gone()->Ok_0;
        assert(segment_reader::scan_found(analyze, docs, gone, field, term, list));
        let (ids, outs) = choose|ids: Seq<u64>, outs: Seq<Option<PostingView>>|
            {
                &&& crate::sort::ascends(ids)
                &&& ids.to_set() == docs.dom()
                &&& #[trigger] segment_reader::scan_finds_each(
                    analyze,
                    docs,
                    gone,
                    field,
                    term,
                    ids,
                    outs,
                )
                &&& outs.len() == ids.len()
                &&& list == segment_reader::present(outs)
            };
        assert forall|i: int| 0 <= i < outs.len() implies ((#[trigger] outs[i]) matches Some(p)
            ==> is_narrow(p)) by {
            assert(segment_reader::scan_finds(analyze, docs, gone, field, term, ids[i], outs[i]));
        }
        lemma_present_narrow(outs);
    }
}

proof fn lemma_posting_stands(term: Seq<char>, list: Seq<PostingView>, n: int, id: u64)
    requires
        0 <= n <= list.len(),
        forall|k: int| 0 <= k < n ==> is_narrow(#[trigger] list[k]),
    ensures
        stand_as(
            replay::list_terms(term, list, n, id),
            list.take(n).filter(|p: PostingView| p.doc_id == id),
        ),
        forall|i: int|
            0 <= i < replay::list_terms(term, list, n, id).len() ==> (
            #[trigger] replay::list_terms(term, list, n, id)[i]).term == term,
    decreases n,
{
    reveal(Seq::filter);
    let of = |p: PostingView| p.doc_id == id;
    if n > 0 {
        lemma_posting_stands(term, list, n - 1, id);
        let before = replay::list_terms(term, list, n - 1, id);
        let ps = list.take(n - 1).filter(of);
        assert(list.take(n).drop_last() =~= list.take(n - 1));
        assert(list.take(n).last() == list[n - 1]);
        let p = list[n - 1];
        assert(is_narrow(p));
        if p.doc_id == id {
            let more = replay::posting_terms(term, p);
            assert(list.take(n).filter(of) =~= ps.push(p));
            assert(ps.push(p).drop_last() =~= ps);
            let all = before + more;
            assert forall|i: int| #![trigger all[i]] 0 <= i < all.len() implies all[i].position
                == positions_of(ps.push(p))[i] && all[i].frequency == frequencies_of(ps.push(p))[i]
                && all[i].offset == (0usize, 0usize) && all[i].term == term by {
                if i < before.len() {
                    assert(all[i] == before[i]);
                } else {
                    assert(all[i] == more[i - before.len()]);
                    if p.positions.len() > 0 {
                        assert(p.positions[i - before.len()] <= u32::MAX);
                    }
                }
            }
        } else {
            assert(list.take(n).filter(of) =~= ps);
        }
    } else {
        assert(list.take(0).filter(of) =~= Seq::empty());
    }
}

proof fn lemma_keep_all(s: Seq<TermView>, term: Seq<char>)
    requires
        forall|i: int| 0 <= i < s.len() ==> (#[trigger] s[i]).term == term,
    ensures
        s.filter(|t: TermView| t.term == term) == s,
    decreases s.len(),
{
    reveal(Seq::filter);
    if s.len() > 0 {
        let front = s.drop_last();
        assert forall|i: int| 0 <= i < front.len() implies (#[trigger] front[i]).term == term by {
            assert(front[i] == s[i]);
        }
        lemma_keep_all(front, term);
        assert(s[s.len() - 1] == s.last());
        assert(front.push(s.last()) =~= s);
    } else {
        assert(s.filter(|t: TermView| t.term == term) =~= s);
    }
}

proof fn lemma_keep_none(s: Seq<TermView>, other: Seq<char>, term: Seq<char>)
    requires
        forall|i: int| 0 <= i < s.len() ==> (#[trigger] s[i]).term == other,
        other != term,
    ensures
        s.filter(|t: TermView| t.term == term) == Seq::<TermView>::empty(),
    decreases s.len(),
{
    reveal(Seq::filter);
    if s.len() > 0 {
        let front = s.drop_last();
        assert forall|i: int| 0 <= i < front.len() implies (#[trigger] front[i]).term == other by {
            assert(front[i] == s[i]);
        }
        lemma_keep_none(front, other, term);
        assert(s[s.len() - 1] == s.last());
    }
}

proof fn lemma_list_names(term: Seq<char>, list: Seq<PostingView>, n: int, id: u64)
    requires
        0 <= n <= list.len(),
    ensures
        forall|i: int|
            0 <= i < replay::list_terms(term, list, n, id).len() ==> (
            #[trigger] replay::list_terms(term, list, n, id)[i]).term == term,
    decreases n,
{
    if n > 0 {
        lemma_list_names(term, list, n - 1, id);
        let before = replay::list_terms(term, list, n - 1, id);
        let all = replay::list_terms(term, list, n, id);
        let more = replay::posting_terms(term, list[n - 1]);
        assert forall|i: int| 0 <= i < all.len() implies (#[trigger] all[i]).term == term by {
            if i < before.len() {
                assert(all[i] == before[i]);
            } else {
                assert(all[i] == more[i - before.len()]);
            }
        }
    }
}

proof fn lemma_colon_before(key: Seq<char>)
    ensures
        0 <= replay::colon_in(key) <= key.len(),
        replay::colon_in(key) < key.len() ==> key[replay::colon_in(key)] == ':',
    decreases key.len(),
{
    if key.len() > 0 && key[0] != ':' {
        lemma_colon_before(key.drop_first());
    }
}

proof fn lemma_parts_make_key(key: Seq<char>)
    ensures
        replay::key_parts(key) matches Some((f, t)) ==> key == f + seq![':'] + t,
{
    lemma_colon_before(key);
    let k = replay::colon_in(key);
    if k < key.len() {
        assert(key =~= key.take(k) + seq![':'] + key.skip(k + 1));
    }
}

/// The terms with a text among those of the first `n` names.
proof fn lemma_terms_of_name(
    keys: Seq<Seq<char>>,
    outs: Seq<Option<Seq<PostingView>>>,
    n: int,
    id: u64,
    field: Seq<char>,
    term: Seq<char>,
)
    requires
        0 <= n <= keys.len(),
        keys.len() == outs.len(),
        keys.no_duplicates(),
        forall|i: int| 0 <= i < field.len() ==> field[i] != ':',
    ensures
        ({
            let key = field + seq![':'] + term;
            let found = replay::field_terms_of(keys, outs, n, id, field).filter(
                |t: TermView| t.term == term,
            );
            &&& (forall|k: int| 0 <= k < n ==> #[trigger] keys[k] != key) ==> found == Seq::<
                TermView,
            >::empty()
            &&& forall|k: int| #![trigger keys[k]]
                0 <= k < n && keys[k] == key ==> found == match outs[k] {
                    Some(list) => replay::list_terms(term, list, list.len() as int, id),
                    None => Seq::<TermView>::empty(),
                }
        }),
    decreases n,
{
    let key = field + seq![':'] + term;
    let with = |t: TermView| t.term == term;
    if n > 0 {
        lemma_terms_of_name(keys, outs, n - 1, id, field, term);
        let before = replay::field_terms_of(keys, outs, n - 1, id, field);
        let name = keys[n - 1];
        replay::lemma_key_round_trip(field, term);
        assert(dictionary::full_term(field, term) == key);
        lemma_parts_make_key(name);
        let more = match replay::list_for(name, outs[n - 1], field) {
            Some((t, list)) => replay::list_terms(t, list, list.len() as int, id),
            None => Seq::empty(),
        };
        let all = replay::field_terms_of(keys, outs, n, id, field);
        assert(all =~= before + more);
        Seq::filter_distributes_over_add(before, more, with);
        if let Some((t, list)) = replay::list_for(name, outs[n - 1], field) {
            lemma_list_names(t, list, list.len() as int, id);
            if t == term {
                assert(name == key);
                lemma_keep_all(more, term);
            } else {
                assert(name != key);
                lemma_keep_none(more, t, term);
            }
        } else {
            assert(more.filter(with) =~= Seq::empty()) by {
                reveal(Seq::filter);
            }
        }
        if name == key {
            assert forall|k: int| 0 <= k < n - 1 implies #[trigger] keys[k] != key by {
                assert(keys[k] != keys[n - 1]);
            }
            assert(before.filter(with) =~= Seq::empty());
            assert(all.filter(with) =~= more.filter(with));
        } else {
            assert(more.filter(with) =~= Seq::empty());
            assert(all.filter(with) =~= before.filter(with));
        }
    } else {
        reveal(Seq::filter);
        assert(replay::field_terms_of(keys, outs, n, id, field).filter(with) =~= Seq::empty());
    }
}

proof fn lemma_keys_differ(reader: SegmentReader)
    requires
        reader.wf(),
    ensures
        replay::reader_keys(reader).no_duplicates(),
{
    reader.lemma_dictionary_ascends();
    if let Ok(Some(d)) = reader.dictionary() {
        let keys = replay::keys_of(d);
        assert forall|i: int, j: int| 0 <= i < keys.len() && 0 <= j < keys.len() && i != j implies keys[i]
            != keys[j] by {
            if i < j {
                assert(names::name_before(d.terms@[i].0, d.terms@[j].0));
                names::lemma_name_before_asymmetric(d.terms@[i].0, d.terms@[j].0);
            } else {
                assert(names::name_before(d.terms@[j].0, d.terms@[i].0));
                names::lemma_name_before_asymmetric(d.terms@[j].0, d.terms@[i].0);
            }
        }
    }
}

/// A field of a document that is carried over has of each term exactly the positions that
/// the document has in the postings of the term, in their order and with their frequency.
proof fn lemma_carried_postings<
    D: Fn(&SegmentInfo, u64, PostingFormat) -> Result<DecodedPostingList, LaurusError>,
    N: Fn(&str, &DataValue) -> Result<Vec<AnalyzedTerm>, LaurusError>,
>(
    decode: D,
    analyze: N,
    reader: SegmentReader,
    skip: Option<Seq<char>>,
    outs: Seq<Option<Seq<PostingView>>>,
    id: u64,
    a: AnalyzedDocument,
    field: Seq<char>,
    term: Seq<char>,
) -> (list: Option<Seq<PostingView>>)
    requires
        reader.wf(),
        outs.len() == replay::reader_keys(reader).len(),
        replay::are_listed(decode, analyze, reader, skip, replay::reader_keys(reader), outs),
        skip != Some(field),
        forall|i: int| 0 <= i < field.len() ==> field[i] != ':',
        replay::is_carried(reader, skip, outs, id, a, field),
    ensures
        are_postings(decode, analyze, reader, field, term, list),
        stand_as(terms_with(a, field, term), of_document(list, id)),
{
    let keys = replay::reader_keys(reader);
    let key = field + seq![':'] + term;
    let with = |t: TermView| t.term == term;
    let all = replay::field_terms_of(keys, outs, keys.len() as int, id, field);
    lemma_keys_differ(reader);
    lemma_terms_of_name(keys, outs, keys.len() as int, id, field, term);
    assert(terms_with(a, field, term) =~= all.filter(with)) by {
        reveal(Seq::filter);
    }
    if keys.contains(key) {
        let k = choose|k: int| 0 <= k < keys.len() && keys[k] == key;
        replay::lemma_key_round_trip(field, term);
        assert(dictionary::full_term(field, term) == key);
        assert(replay::is_listed(decode, analyze, reader, skip, keys[k], outs[k]));
        if let Some(list) = outs[k] {
            assert forall|i: int| 0 <= i < list.len() implies is_narrow(#[trigger] list[i]) by {
                lemma_postings_narrow(decode, analyze, reader, field, term, list, i);
            }
            lemma_posting_stands(term, list, list.len() as int, id);
            assert(list.take(list.len() as int) =~= list);
        }
        outs[k]
    } else {
        assert forall|k: int| 0 <= k < keys.len() implies #[trigger] keys[k] != key by {
            assert(keys.contains(keys[k]));
        }
        None
    }
}

// ---------------------------------------------------------------------------
// Points
// ---------------------------------------------------------------------------

/// The documents with their points in the leaves of a tree, from left to right.
pub open spec fn leaf_entries(t: Tree) -> Seq<(u64, Seq<u64>)>
    decreases t,
{
    match t {
        Tree::Leaf { entries: Ok(es), .. } => es,
        Tree::Node { left, right, .. } => leaf_entries(*left) + leaf_entries(*right),
        Tree::Both { first, second } => leaf_entries(*first) + leaf_entries(*second),
        _ => Seq::empty(),
    }
}

proof fn lemma_visit_all(s: Seq<(u64, Seq<u64>)>, es: Seq<(u64, Seq<u64>)>)
    ensures
        visitor::visit_all::<CollectPointsVisitor>(s, es) == s + es,
    decreases es.len(),
{
    if es.len() > 0 {
        lemma_visit_all(s, es.drop_last());
        assert((s + es.drop_last()).push(es.last()) =~= s + es);
    } else {
        assert(s + es =~= s);
    }
}

proof fn lemma_walk_collects(t: Tree, s: Seq<(u64, Seq<u64>)>)
    requires
        bkd_tree::walk::<CollectPointsVisitor>(t, s).1 is Ok,
    ensures
        bkd_tree::walk::<CollectPointsVisitor>(t, s).0 == s + leaf_entries(t),
    decreases t,
{
    match t {
        Tree::Leaf { cell, entries } => {
            if let Ok(es) = entries {
                lemma_visit_all(s, es);
            }
        },
        Tree::Node { left_cell, left, right_cell, right } => {
            let w = bkd_tree::walk::<CollectPointsVisitor>(*left, s);
            assert(bkd_tree::walk_child::<CollectPointsVisitor>(left_cell, *left, s) == w);
            lemma_walk_collects(*left, s);
            assert(bkd_tree::walk_child::<CollectPointsVisitor>(right_cell, *right, w.0)
                == bkd_tree::walk::<CollectPointsVisitor>(*right, w.0));
            lemma_walk_collects(*right, w.0);
            assert(bkd_tree::walk::<CollectPointsVisitor>(t, s).0 =~= s + leaf_entries(t));
        },
        Tree::Both { first, second } => {
            lemma_walk_collects(*first, s);
            let mid = bkd_tree::walk::<CollectPointsVisitor>(*first, s).0;
            lemma_walk_collects(*second, mid);
            assert(bkd_tree::walk::<CollectPointsVisitor>(t, s).0 =~= s + leaf_entries(t));
        },
        _ => {
            assert(s + leaf_entries(t) =~= s);
        },
    }
}

/// The points of a document among entries.
pub open spec fn points_at(entries: Seq<(u64, Seq<u64>)>, id: u64) -> Seq<Seq<u64>> {
    entries.filter(|e: (u64, Seq<u64>)| e.0 == id).map_values(|e: (u64, Seq<u64>)| e.1)
}

proof fn lemma_entry_points(entries: Seq<(u64, Seq<u64>)>, n: int, id: u64)
    requires
        0 <= n <= entries.len(),
    ensures
        replay::entry_points(entries, n, id) == points_at(entries.take(n), id),
    decreases n,
{
    reveal(Seq::filter);
    let of = |e: (u64, Seq<u64>)| e.0 == id;
    let point = |e: (u64, Seq<u64>)| e.1;
    if n > 0 {
        lemma_entry_points(entries, n - 1, id);
        assert(entries.take(n).drop_last() =~= entries.take(n - 1));
        assert(entries.take(n).last() == entries[n - 1]);
        let before = entries.take(n - 1).filter(of);
        if entries[n - 1].0 == id {
            assert(before.push(entries[n - 1]).map_values(point) =~= before.map_values(point).push(
                entries[n - 1].1,
            ));
        }
    } else {
        assert(points_at(entries.take(n), id) =~= Seq::empty());
    }
}

/// The points that a segment has of a field of a document.
pub open spec fn points_kept(reader: SegmentReader, field: Seq<char>, id: u64) -> Seq<Seq<u64>> {
    match names::value_of(reader.trees(), field) {
        Some(Ok(t)) => points_at(leaf_entries(t.tree()), id),
        _ => Seq::empty(),
    }
}

proof fn lemma_points_of_field(
    reader: SegmentReader,
    skip: Option<Seq<char>>,
    n: int,
    id: u64,
    field: Seq<char>,
)
    requires
        reader.wf(),
        0 <= n <= reader.trees().len(),
        skip != Some(field),
        replay::trees_walk(reader.trees(), skip, reader.trees().len() as int),
    ensures
        (forall|k: int| 0 <= k < n ==> (#[trigger] reader.trees()[k]).0 != field)
            ==> replay::field_points_of(reader.trees(), skip, n, id, field) == Seq::<Seq<u64>>::empty(),
        forall|k: int| #![trigger reader.trees()[k]]
            0 <= k < n && reader.trees()[k].0 == field ==> replay::field_points_of(
                reader.trees(),
                skip,
                n,
                id,
                field,
            ) == points_kept(reader, field, id),
    decreases n,
{
    let trees = reader.trees();
    reader.lemma_trees_ascend();
    if n > 0 {
        lemma_points_of_field(reader, skip, n - 1, id, field);
        let before = replay::field_points_of(trees, skip, n - 1, id, field);
        assert forall|k: int| 0 <= k < n - 1 && trees[n - 1].0 == field implies (
        #[trigger] trees[k]).0 != field by {
            assert(names::name_before(trees[k].0, trees[n - 1].0));
            names::lemma_name_before_asymmetric(trees[k].0, trees[n - 1].0);
        }
        if trees[n - 1].0 == field {
            names::lemma_value_at(trees, field, n - 1);
            let t = trees[n - 1].1->Ok_0;
            let entries = replay::tree_entries(t);
            lemma_walk_collects(t.tree(), Seq::empty());
            assert(entries =~= leaf_entries(t.tree()));
            lemma_entry_points(entries, entries.len() as int, id);
            assert(entries.take(entries.len() as int) =~= entries);
            assert(before =~= Seq::empty());
            assert(replay::field_points_of(trees, skip, n, id, field) =~= points_kept(
                reader,
                field,
                id,
            ));
        }
    }
}

proof fn lemma_carried_points(
    reader: SegmentReader,
    skip: Option<Seq<char>>,
    outs: Seq<Option<Seq<PostingView>>>,
    id: u64,
    a: AnalyzedDocument,
    field: Seq<char>,
)
    requires
        reader.wf(),
        skip != Some(field),
        replay::trees_walk(reader.trees(), skip, reader.trees().len() as int),
        replay::is_carried(reader, skip, outs, id, a, field),
    ensures
        match parser::points_in(a, field) {
            Some(ps) => ps.len() > 0 && ps == points_kept(reader, field, id),
            None => points_kept(reader, field, id).len() == 0,
        },
{
    let trees = reader.trees();
    let n = trees.len() as int;
    reader.lemma_trees_ascend();
    lemma_points_of_field(reader, skip, n, id, field);
    if names::has_name(trees, field) {
        let k = choose|k: int| 0 <= k < trees.len() && (#[trigger] trees[k]).0 == field;
        assert(replay::field_points_of(trees, skip, n, id, field) == points_kept(
            reader,
            field,
            id,
        ));
    } else {
        assert forall|k: int| 0 <= k < n implies (#[trigger] trees[k]).0 != field by {
            if trees[k].0 == field {
                assert(names::has_name(trees, field));
            }
        }
    }
}

// ---------------------------------------------------------------------------
// Merging
// ---------------------------------------------------------------------------

/// Whether a segment stores a document that it does not record as deleted. Where the
/// record cannot be read, none counts as deleted.
pub open spec fn has_live(reader: SegmentReader, id: u64) -> bool {
    reader.documents()->Ok_0.contains_key(id) && !(reader.gone() is Ok
        && reader.gone()->Ok_0.contains(id))
}

/// Whether segment `i` is the last in which a document is live.
pub open spec fn is_last(sources: Seq<&MergeSource>, i: int, id: u64) -> bool {
    &&& 0 <= i < sources.len()
    &&& has_live(sources[i].reader, id)
    &&& forall|j: int| i < j < sources.len() ==> !has_live((#[trigger] sources[j]).reader, id)
}

proof fn lemma_carried_from<
    D: Fn(&SegmentInfo, u64, PostingFormat) -> Result<DecodedPostingList, LaurusError>,
    N: Fn(&str, &DataValue) -> Result<Vec<AnalyzedTerm>, LaurusError>,
    C: Fn(&DataValue) -> bool,
>(
    decode: D,
    analyze: N,
    candidate: C,
    config: MergeConfig,
    sources: Seq<&MergeSource>,
    segment_id: Seq<char>,
    p: PendingMerge,
    j: int,
    last: int,
)
    requires
        merge_engine::is_merge_of(decode, analyze, candidate, config, sources, segment_id, p),
        0 <= j < p.buffer.documents@.len(),
        is_last(sources, last, p.buffer.documents@[j].0),
    ensures
        merging::comes_from(
            decode,
            analyze,
            sources[last].reader,
            p.buffer.documents@[j].0,
            p.buffer.documents@[j].1,
        ),
{
    let docs = p.buffer.documents@;
    let id = docs[j].0;
    assert(merging::is_from_owner(decode, analyze, sources, id, docs[j].1));
    let i = choose|i: int|
        0 <= i < sources.len() && #[trigger] merging::owned_by(sources, i).contains(id)
            && merging::comes_from(decode, analyze, sources[i].reader, id, docs[j].1);
    assert(merging::live_ids(sources[i].reader).contains(id));
    assert(has_live(sources[i].reader, id));
    if i < last {
        assert(merging::live_ids(sources[last].reader).contains(id));
    }
}

/// A merge keeps documents: a document is in the merged segment exactly where it is live
/// in some segment, and then once.
pub proof fn lemma_merged_documents<
    D: Fn(&SegmentInfo, u64, PostingFormat) -> Result<DecodedPostingList, LaurusError>,
    N: Fn(&str, &DataValue) -> Result<Vec<AnalyzedTerm>, LaurusError>,
    C: Fn(&DataValue) -> bool,
>(
    decode: D,
    analyze: N,
    candidate: C,
    config: MergeConfig,
    sources: Seq<&MergeSource>,
    segment_id: Seq<char>,
    p: PendingMerge,
    id: u64,
)
    requires
        merge_engine::is_merge_of(decode, analyze, candidate, config, sources, segment_id, p),
    ensures
        (exists|j: int| 0 <= j < p.buffer.documents@.len() && (#[trigger] p.buffer.documents@[j]).0
            == id) <==> exists|i: int|
            0 <= i < sources.len() && has_live((#[trigger] sources[i]).reader, id),
        forall|j: int, k: int|
            0 <= j < k < p.buffer.documents@.len() ==> (#[trigger] p.buffer.documents@[j]).0 != (
            #[trigger] p.buffer.documents@[k]).0,
{
    let docs = p.buffer.documents@;
    let ids = merging::ids_of(docs);
    assert(ids.contains(id) <==> merging::live_from(sources, 0, id));
    if exists|j: int| 0 <= j < docs.len() && (#[trigger] docs[j]).0 == id {
        let j = choose|j: int| 0 <= j < docs.len() && (#[trigger] docs[j]).0 == id;
        assert(ids[j] == id);
        let i = choose|i: int|
            0 <= i < sources.len() && merging::live_ids((#[trigger] sources[i]).reader).contains(id);
        assert(has_live(sources[i].reader, id));
    }
    if exists|i: int| 0 <= i < sources.len() && has_live((#[trigger] sources[i]).reader, id) {
        let i = choose|i: int| 0 <= i < sources.len() && has_live((#[trigger] sources[i]).reader, id);
        assert(merging::live_ids(sources[i].reader).contains(id));
        let j = choose|j: int| 0 <= j < ids.len() && ids[j] == id;
        assert(docs[j].0 == id);
    }
    assert forall|j: int, k: int| 0 <= j < k < docs.len() implies (#[trigger] docs[j]).0 != (
    #[trigger] docs[k]).0 by {
        assert(ids[j] != ids[k]);
    }
}

/// A merge keeps postings: of each term of a field, a document of the merged segment has
/// exactly the positions that it has in the postings of the term in the last segment in
/// which it is live, in their order and with their frequency. Where the posting keeps no
/// positions, the document has the term once.
pub proof fn lemma_merge_keeps_postings<
    D: Fn(&SegmentInfo, u64, PostingFormat) -> Result<DecodedPostingList, LaurusError>,
    N: Fn(&str, &DataValue) -> Result<Vec<AnalyzedTerm>, LaurusError>,
    C: Fn(&DataValue) -> bool,
>(
    decode: D,
    analyze: N,
    candidate: C,
    config: MergeConfig,
    sources: Seq<&MergeSource>,
    segment_id: Seq<char>,
    p: PendingMerge,
    j: int,
    last: int,
    field: Seq<char>,
    term: Seq<char>,
)
    requires
        merge_engine::is_merge_of(decode, analyze, candidate, config, sources, segment_id, p),
        0 <= j < p.buffer.documents@.len(),
        is_last(sources, last, p.buffer.documents@[j].0),
        sources[last].reader.wf(),
        forall|i: int| 0 <= i < field.len() ==> field[i] != ':',
    ensures
        exists|list: Option<Seq<PostingView>>| #[trigger]
            are_postings(decode, analyze, sources[last].reader, field, term, list) && stand_as(
                terms_with(p.buffer.documents@[j].1, field, term),
                of_document(list, p.buffer.documents@[j].0),
            ),
{
    let (id, a) = p.buffer.documents@[j];
    let reader = sources[last].reader;
    lemma_carried_from(decode, analyze, candidate, config, sources, segment_id, p, j, last);
    let outs = choose|outs: Seq<Option<Seq<PostingView>>>| #[trigger]
        merging::listed_whole(decode, analyze, reader, outs) && replay::is_replayed(
            reader,
            outs,
            id,
            a,
        );
    assert(replay::is_carried(reader, None, outs, id, a, field));
    let list = lemma_carried_postings(decode, analyze, reader, None, outs, id, a, field, term);
    assert(are_postings(decode, analyze, reader, field, term, list));
}

/// A merge keeps stored fields, points and lengths: a document of the merged segment has
/// the stored fields, the points and the lengths that it has in the last segment in which
/// it is live. A length is kept where the field has terms or where the segment has
/// statistics of it.
pub proof fn lemma_merge_keeps_points<
    D: Fn(&SegmentInfo, u64, PostingFormat) -> Result<DecodedPostingList, LaurusError>,
    N: Fn(&str, &DataValue) -> Result<Vec<AnalyzedTerm>, LaurusError>,
    C: Fn(&DataValue) -> bool,
>(
    decode: D,
    analyze: N,
    candidate: C,
    config: MergeConfig,
    sources: Seq<&MergeSource>,
    segment_id: Seq<char>,
    p: PendingMerge,
    j: int,
    last: int,
    field: Seq<char>,
)
    requires
        merge_engine::is_merge_of(decode, analyze, candidate, config, sources, segment_id, p),
        0 <= j < p.buffer.documents@.len(),
        is_last(sources, last, p.buffer.documents@[j].0),
        sources[last].reader.wf(),
    ensures
        ({
            let (id, a) = p.buffer.documents@[j];
            let reader = sources[last].reader;
            let measures = reader.measures()->Ok_0;
            let recorded = names::value_of(measures.all_stats(), field) is Some;
            &&& data::fields_view(a.stored_fields@) == reader.documents()->Ok_0[id]
            &&& match parser::points_in(a, field) {
                Some(ps) => ps.len() > 0 && ps == points_kept(reader, field, id),
                None => points_kept(reader, field, id).len() == 0,
            }
            &&& names::value_of(a.field_lengths@, field) == if parser::terms_in(a, field) is Some
                || recorded {
                measures.length_of(id, field)
            } else {
                None
            }
        }),
{
    let (id, a) = p.buffer.documents@[j];
    let reader = sources[last].reader;
    lemma_carried_from(decode, analyze, candidate, config, sources, segment_id, p, j, last);
    let outs = choose|outs: Seq<Option<Seq<PostingView>>>| #[trigger]
        merging::listed_whole(decode, analyze, reader, outs) && replay::is_replayed(
            reader,
            outs,
            id,
            a,
        );
    assert(replay::is_carried(reader, None, outs, id, a, field));
    assert(replay::can_be_replayed(reader, merging::deletions_of(reader), None));
    lemma_carried_points(reader, None, outs, id, a, field);
    assert(reader.documents()->Ok_0.contains_key(id));
    assert(reader.gone() is Ok);
}

/// What describes a merged segment: its documents counted, the least and the greatest of
/// their ids, no deletions, the first generation, and the shard of the first segment.
pub proof fn lemma_merged_segment_is_described<
    D: Fn(&SegmentInfo, u64, PostingFormat) -> Result<DecodedPostingList, LaurusError>,
    N: Fn(&str, &DataValue) -> Result<Vec<AnalyzedTerm>, LaurusError>,
    C: Fn(&DataValue) -> bool,
>(
    decode: D,
    analyze: N,
    candidate: C,
    config: MergeConfig,
    sources: Seq<&MergeSource>,
    segment_id: Seq<char>,
    p: PendingMerge,
)
    requires
        merge_engine::is_merge_of(decode, analyze, candidate, config, sources, segment_id, p),
    ensures
        ({
            let info = p.segment_info;
            let docs = p.buffer.documents@;
            &&& info.segment_id@ == segment_id
            &&& info.doc_count == docs.len()
            &&& info.generation == 0
            &&& !info.has_deletions
            &&& info.deleted_count == Some(0u64)
            &&& sources.len() > 0 ==> info.shard_id
                == sources[0].managed.segment_info.shard_id
            &&& forall|j: int|
                0 <= j < docs.len() ==> info.min_doc_id <= (#[trigger] docs[j]).0
                    && docs[j].0 <= info.max_doc_id
            &&& docs.len() > 0 ==> has_document(docs, info.min_doc_id) && has_document(
                docs,
                info.max_doc_id,
            )
        }),
{
    let info = p.segment_info;
    let docs = p.buffer.documents@;
    let ids = merging::ids_of(docs);
    assert(p.buffer.documents.len() == docs.len());
    assert(info@.doc_count == docs.len() as u64);
    assert forall|j: int| 0 <= j < docs.len() implies info.min_doc_id <= (#[trigger] docs[j]).0
        && docs[j].0 <= info.max_doc_id by {
        assert(ids[j] == docs[j].0);
    }
    if docs.len() > 0 {
        let a = choose|a: int| 0 <= a < ids.len() && ids[a] == info.min_doc_id;
        assert(docs[a].0 == info.min_doc_id);
        let b = choose|b: int| 0 <= b < ids.len() && ids[b] == info.max_doc_id;
        assert(docs[b].0 == info.max_doc_id);
    }
}

/// Whether a document with this id is there.
pub open spec fn has_document(docs: Seq<(u64, AnalyzedDocument)>, id: u64) -> bool {
    exists|j: int| 0 <= j < docs.len() && (#[trigger] docs[j]).0 == id
}

// ---------------------------------------------------------------------------
// Columns
// ---------------------------------------------------------------------------

/// Whether a live document of a segment has a value of a field of which `candidate` says
/// this.
pub open spec fn has_value_of<C: Fn(&DataValue) -> bool>(
    candidate: C,
    reader: SegmentReader,
    id: u64,
    field: Seq<char>,
    says: bool,
) -> bool {
    &&& has_live(reader, id)
    &&& exists|v: &DataValue| #[trigger]
        call_ensures(candidate, (v,), says) && names::value_of(
            reader.documents()->Ok_0[id],
            field,
        ) == Some(v@)
}

/// Where the schema does not say whether a field has a column, the merged segment says it
/// only where some segment has a live document with a value that a column can hold, and
/// then as that segment has it.
pub proof fn lemma_column_of_some_segment<
    D: Fn(&SegmentInfo, u64, PostingFormat) -> Result<DecodedPostingList, LaurusError>,
    N: Fn(&str, &DataValue) -> Result<Vec<AnalyzedTerm>, LaurusError>,
    C: Fn(&DataValue) -> bool,
>(
    decode: D,
    analyze: N,
    candidate: C,
    config: MergeConfig,
    sources: Seq<&MergeSource>,
    segment_id: Seq<char>,
    p: PendingMerge,
    field: Seq<char>,
) -> (found: (int, u64))
    requires
        merge_engine::is_merge_of(decode, analyze, candidate, config, sources, segment_id, p),
        names::value_of(config.field_doc_values@, field) is None,
        names::value_of(p.buffer.doc_values@, field) is Some,
    ensures
        0 <= found.0 < sources.len(),
        has_value_of(candidate, sources[found.0].reader, found.1, field, true),
        names::value_of(p.buffer.doc_values@, field) == Some(
            reader::has_column(sources[found.0].reader, field),
        ),
{
    merge_laws::lemma_segments_settle_columns(
        decode,
        analyze,
        candidate,
        config,
        sources,
        segment_id,
        p,
        field,
    );
    let b = names::value_of(p.buffer.doc_values@, field)->Some_0;
    let i = choose|i: int|
        0 <= i < sources.len() && #[trigger] merge_laws::shows_column(
            candidate,
            sources,
            i,
            field,
            b,
        );
    let reader = sources[i].reader;
    let ids = replay::stored_ids(reader);
    let k = choose|k: int|
        0 <= k < ids.len() && replay::is_live(
            reader,
            merging::deletions_of(reader),
            #[trigger] ids[k],
        ) && replay::says_of(candidate, replay::stored_at(reader, ids[k]), field, true);
    (i, ids[k])
}

// ---------------------------------------------------------------------------
// Rebuilding
// ---------------------------------------------------------------------------

/// A rebuilding keeps the postings of every other field: of each of its terms, a document
/// has exactly the positions that it has in the postings of the segment, in their order and
/// with their frequency. It keeps the stored fields of the document and the points and
/// lengths of every other field too.
pub proof fn lemma_rebuild_keeps_other_fields<
    D: Fn(&SegmentInfo, u64, PostingFormat) -> Result<DecodedPostingList, LaurusError>,
    N: Fn(&str, &DataValue) -> Result<Vec<AnalyzedTerm>, LaurusError>,
    C: Fn(&DataValue) -> bool,
    R: Fn(&str, &DataValue) -> Result<(Vec<AnalyzedTerm>, Vec<Vec<u64>>), LaurusError>,
>(
    decode: D,
    analyze: N,
    candidate: C,
    rederive: Option<&R>,
    source: MergeSource,
    field: Seq<char>,
    segment_id: Seq<char>,
    positions: Seq<(Seq<char>, bool)>,
    columns: Seq<(Seq<char>, bool)>,
    p: PendingMerge,
    j: int,
    other: Seq<char>,
    term: Seq<char>,
) -> (list: Option<Seq<PostingView>>)
    requires
        merge_engine::is_rebuilt_segment(
            decode,
            analyze,
            candidate,
            rederive,
            source,
            field,
            segment_id,
            positions,
            columns,
            p,
        ),
        source.reader.wf(),
        0 <= j < p.buffer.documents@.len(),
        other != field,
        forall|i: int| 0 <= i < other.len() ==> other[i] != ':',
    ensures
        are_postings(decode, analyze, source.reader, other, term, list),
        stand_as(
            terms_with(p.buffer.documents@[j].1, other, term),
            of_document(list, p.buffer.documents@[j].0),
        ),
        ({
            let (id, a) = p.buffer.documents@[j];
            let reader = source.reader;
            let measures = reader.measures()->Ok_0;
            let recorded = names::value_of(measures.all_stats(), other) is Some;
            &&& has_live(reader, id)
            &&& data::fields_view(a.stored_fields@) == reader.documents()->Ok_0[id]
            &&& match parser::points_in(a, other) {
                Some(ps) => ps.len() > 0 && ps == points_kept(reader, other, id),
                None => points_kept(reader, other, id).len() == 0,
            }
            &&& names::value_of(a.field_lengths@, other) == if parser::terms_in(a, other) is Some
                || recorded {
                measures.length_of(id, other)
            } else {
                None
            }
        }),
{
    let docs = p.buffer.documents@;
    let (id, a) = docs[j];
    let reader = source.reader;
    let gone = merging::deletions_of(reader);
    let outs = choose|outs: Seq<Option<Seq<PostingView>>>| #[trigger]
        replay::rebuild_done(
            decode,
            analyze,
            candidate,
            rederive,
            reader,
            gone,
            field,
            positions,
            p.buffer.term_positions@,
            columns,
            p.buffer.doc_values@,
            docs,
            outs,
        );
    let ids = replay::chosen_ids(reader, gone, None);
    assert(docs[j].0 == ids[j]);
    assert(replay::is_rebuilt(rederive, reader, outs, field, id, a));
    assert(replay::is_carried(reader, Some(field), outs, id, a, other));
    let all = replay::stored_ids(reader);
    let chosen = replay::is_chosen(reader, gone, None);
    all.lemma_filter_pred(chosen, j);
    assert(replay::is_live(reader, gone, id));
    lemma_carried_points(reader, Some(field), outs, id, a, other);
    lemma_carried_postings(decode, analyze, reader, Some(field), outs, id, a, other, term)
}

/// A rebuilding analyzes the field anew: a document has the terms and points that
/// `rederive` makes of the value that is stored of it, and none where it stores no value
/// or where the field is dropped.
pub proof fn lemma_rebuild_derives_field<
    D: Fn(&SegmentInfo, u64, PostingFormat) -> Result<DecodedPostingList, LaurusError>,
    N: Fn(&str, &DataValue) -> Result<Vec<AnalyzedTerm>, LaurusError>,
    C: Fn(&DataValue) -> bool,
    R: Fn(&str, &DataValue) -> Result<(Vec<AnalyzedTerm>, Vec<Vec<u64>>), LaurusError>,
>(
    decode: D,
    analyze: N,
    candidate: C,
    rederive: Option<&R>,
    source: MergeSource,
    field: Seq<char>,
    segment_id: Seq<char>,
    positions: Seq<(Seq<char>, bool)>,
    columns: Seq<(Seq<char>, bool)>,
    p: PendingMerge,
    j: int,
)
    requires
        merge_engine::is_rebuilt_segment(
            decode,
            analyze,
            candidate,
            rederive,
            source,
            field,
            segment_id,
            positions,
            columns,
            p,
        ),
        0 <= j < p.buffer.documents@.len(),
    ensures
        ({
            let (id, a) = p.buffer.documents@[j];
            let value = names::value_of(source.reader.documents()->Ok_0[id], field);
            match (rederive, value) {
                (Some(derive), Some(v)) => derives_to(*derive, field, v, a),
                _ => parser::terms_in(a, field) is None && parser::points_in(a, field) is None
                    && names::value_of(a.field_lengths@, field) is None,
            }
        }),
{
    let docs = p.buffer.documents@;
    let (id, a) = docs[j];
    let reader = source.reader;
    let gone = merging::deletions_of(reader);
    let outs = choose|outs: Seq<Option<Seq<PostingView>>>| #[trigger]
        replay::rebuild_done(
            decode,
            analyze,
            candidate,
            rederive,
            reader,
            gone,
            field,
            positions,
            p.buffer.term_positions@,
            columns,
            p.buffer.doc_values@,
            docs,
            outs,
        );
    assert(docs[j].0 == replay::chosen_ids(reader, gone, None)[j]);
    assert(replay::is_rebuilt(rederive, reader, outs, field, id, a));
    let value = names::value_of(reader.documents()->Ok_0[id], field);
    if let (Some(derive), Some(v)) = (rederive, value) {
        let (terms, points) = choose|terms: Seq<TermView>, points: Seq<Seq<u64>>| #[trigger]
            replay::derives(*derive, field, v, terms, points) && replay::holds_anew(
                reader,
                a,
                field,
                terms,
                points,
            );
        let (f, w, out) = choose|
            f: &str,
            w: &DataValue,
            out: Result<(Vec<AnalyzedTerm>, Vec<Vec<u64>>), LaurusError>,
        | #[trigger]
            call_ensures(*derive, (f, w), out) && f@ == field && w@ == v && out is Ok
                && analyzed::term_views(out->Ok_0.0@) == terms && parser::point_views(
                out->Ok_0.1@,
            ) == points;
        assert(call_ensures(*derive, (f, w), out));
    }
}

/// Whether a field of a document has the terms and points that were made of a value.
pub open spec fn derives_to<
    R: Fn(&str, &DataValue) -> Result<(Vec<AnalyzedTerm>, Vec<Vec<u64>>), LaurusError>,
>(derive: R, field: Seq<char>, v: data::DataView, a: AnalyzedDocument) -> bool {
    exists|f: &str, w: &DataValue, out: Result<(Vec<AnalyzedTerm>, Vec<Vec<u64>>), LaurusError>|
        {
            &&& #[trigger] call_ensures(derive, (f, w), out)
            &&& f@ == field
            &&& w@ == v
            &&& out is Ok
            &&& match parser::terms_in(a, field) {
                Some(ts) => ts.len() > 0 && ts == analyzed::term_views(out->Ok_0.0@)
                    && names::value_of(a.field_lengths@, field) == Some(ts.len() as u32),
                None => out->Ok_0.0@.len() == 0,
            }
            &&& match parser::points_in(a, field) {
                Some(ps) => ps.len() > 0 && ps == parser::point_views(out->Ok_0.1@),
                None => out->Ok_0.1@.len() == 0,
            }
        }
}

} // verus!
