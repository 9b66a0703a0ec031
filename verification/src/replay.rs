//! What a segment holds, taken apart by document.
//!
//! When segments are merged no text is analyzed again: the terms of a document are
//! those of its postings, its points those of the point trees, its lengths those that
//! were recorded, and its stored fields those that are stored.

use std::collections::BTreeMap;

use roaring::RoaringTreemap;

use vstd::prelude::*;

use crate::analyzed;
use crate::analyzed::{AnalyzedDocument, AnalyzedTerm, TermView};
use crate::bkd_tree;
use crate::bkd_tree::{BKDReader, BKDTree};
use crate::data;
use crate::data::{DataValue, DataView, Document, FieldsView};
use crate::dictionary::TermDictionary;
use crate::error::LaurusError;
use crate::grouping;
use crate::grouping::Grouped;
use crate::names;
use crate::names::FieldMap;
use crate::parser;
use crate::posting::{DecodedPostingList, PostingIterator, PostingView};
use crate::posting_iterator::InvertedIndexPostingIterator;
use crate::reader;
use crate::segment::SegmentInfo;
use crate::segment_reader;
use crate::segment_reader::{PostingFormat, SegmentReader};
use crate::sort;
use crate::treemap;
use crate::visitor;
use crate::visitor::{CollectPointsVisitor, IntersectVisitor};

verus! {

// ---------------------------------------------------------------------------
// Names of terms
// ---------------------------------------------------------------------------

/// Where the first colon of a name stands; behind its end where it has none.
pub open spec fn colon_in(key: Seq<char>) -> int
    decreases key.len(),
{
    if key.len() == 0 || key[0] == ':' {
        0
    } else {
        1 + colon_in(key.drop_first())
    }
}

/// The field and the term that a name in a dictionary stands for: what stands before
/// and behind its first colon.
pub open spec fn key_parts(key: Seq<char>) -> Option<(Seq<char>, Seq<char>)> {
    let k = colon_in(key);
    if k < key.len() {
        Some((key.take(k), key.skip(k + 1)))
    } else {
        None
    }
}

proof fn lemma_colon_at(key: Seq<char>, k: int)
    requires
        0 <= k <= key.len(),
        forall|i: int| 0 <= i < k ==> key[i] != ':',
    ensures
        k < key.len() && key[k] == ':' ==> colon_in(key) == k,
        k == key.len() ==> colon_in(key) == k,
    decreases k,
{
    if k > 0 {
        let rest = key.drop_first();
        assert forall|i: int| 0 <= i < k - 1 implies rest[i] != ':' by {
            assert(rest[i] == key[i + 1]);
        }
        lemma_colon_at(rest, k - 1);
    }
}

/// A name in a dictionary is taken apart as it was put together, where the field has no
/// colon.
pub proof fn lemma_key_round_trip(field: Seq<char>, term: Seq<char>)
    requires
        forall|i: int| 0 <= i < field.len() ==> field[i] != ':',
    ensures
        key_parts(crate::dictionary::full_term(field, term)) == Some((field, term)),
{
    let key = crate::dictionary::full_term(field, term);
    lemma_colon_at(key, field.len() as int);
    assert(key.take(field.len() as int) =~= field);
    assert(key.skip(field.len() as int + 1) =~= term);
}

/// Takes a name in a dictionary apart.
pub fn split_key(key: &str) -> (r: Option<(&str, &str)>)
    ensures
        match key_parts(key@) {
            Some(p) => r is Some && r->Some_0.0@ == p.0 && r->Some_0.1@ == p.1,
            None => r is None,
        },
{
    let n: usize = key.unicode_len();
    let mut i: usize = 0;
    while i < n
        invariant
            n == key@.len(),
            i <= n,
            forall|j: int| 0 <= j < i ==> key@[j] != ':',
        decreases n - i,
    {
        if key.get_char(i) == ':' {
            proof {
                lemma_colon_at(key@, i as int);
                assert(key@.subrange(0, i as int) =~= key@.take(i as int));
                assert(key@.subrange(i + 1, n as int) =~= key@.skip(i + 1));
            }
            return Some((key.substring_char(0, i), key.substring_char(i + 1, n)));
        }
        i = i + 1;
    }
    proof {
        lemma_colon_at(key@, n as int);
    }
    None
}

// ---------------------------------------------------------------------------
// Terms of postings
// ---------------------------------------------------------------------------

/// The terms that stand for a posting: one for each position, or a single one where no
/// positions are kept.
pub open spec fn posting_terms(term: Seq<char>, p: PostingView) -> Seq<TermView> {
    if p.positions.len() == 0 {
        seq![TermView { term, position: 0, frequency: p.frequency as u32, offset: (0, 0) }]
    } else {
        p.positions.map_values(
            |pos: u64|
                TermView {
                    term,
                    position: pos as u32,
                    frequency: p.frequency as u32,
                    offset: (0, 0),
                },
        )
    }
}

/// The terms of a document in the first `n` postings of a term.
pub open spec fn list_terms(term: Seq<char>, list: Seq<PostingView>, n: int, id: u64) -> Seq<TermView>
    decreases n,
{
    if n <= 0 {
        Seq::empty()
    } else if list[n - 1].doc_id == id {
        list_terms(term, list, n - 1, id) + posting_terms(term, list[n - 1])
    } else {
        list_terms(term, list, n - 1, id)
    }
}

/// The postings of a name in a dictionary that are of this field.
pub open spec fn list_for(key: Seq<char>, out: Option<Seq<PostingView>>, field: Seq<char>) -> Option<
    (Seq<char>, Seq<PostingView>),
> {
    match key_parts(key) {
        None => None,
        Some((f, t)) => match out {
            Some(list) => if f == field {
                Some((t, list))
            } else {
                None
            },
            None => None,
        },
    }
}

/// The terms of a field of a document in the postings of the first `n` names.
pub open spec fn field_terms_of(
    keys: Seq<Seq<char>>,
    outs: Seq<Option<Seq<PostingView>>>,
    n: int,
    id: u64,
    field: Seq<char>,
) -> Seq<TermView>
    decreases n,
{
    if n <= 0 {
        Seq::empty()
    } else {
        let before = field_terms_of(keys, outs, n - 1, id, field);
        match list_for(keys[n - 1], outs[n - 1], field) {
            Some((t, list)) => before + list_terms(t, list, list.len() as int, id),
            None => before,
        }
    }
}

/// The names of a dictionary.
pub open spec fn keys_of(d: TermDictionary) -> Seq<Seq<char>> {
    d.terms@.map_values(|e: (Seq<char>, crate::dictionary::TermInfo)| e.0)
}

/// The names of the dictionary of a segment.
pub open spec fn reader_keys(r: SegmentReader) -> Seq<Seq<char>> {
    match r.dictionary() {
        Ok(Some(d)) => keys_of(d),
        _ => Seq::empty(),
    }
}

/// Whether what stands beside a name are its postings: none for a name without a colon
/// and for the field that is left out.
pub open spec fn is_listed<
    D: Fn(&SegmentInfo, u64, PostingFormat) -> Result<DecodedPostingList, LaurusError>,
    N: Fn(&str, &DataValue) -> Result<Vec<AnalyzedTerm>, LaurusError>,
>(
    decode: D,
    analyze: N,
    reader: SegmentReader,
    skip: Option<Seq<char>>,
    key: Seq<char>,
    out: Option<Seq<PostingView>>,
) -> bool {
    match key_parts(key) {
        None => out is None,
        Some((f, t)) => if skip == Some(f) {
            out is None
        } else {
            reader::postings_are(decode, analyze, reader, f, t, out)
        },
    }
}

/// Whether what stands beside each of the first names are its postings.
pub open spec fn are_listed<
    D: Fn(&SegmentInfo, u64, PostingFormat) -> Result<DecodedPostingList, LaurusError>,
    N: Fn(&str, &DataValue) -> Result<Vec<AnalyzedTerm>, LaurusError>,
>(
    decode: D,
    analyze: N,
    reader: SegmentReader,
    skip: Option<Seq<char>>,
    keys: Seq<Seq<char>>,
    outs: Seq<Option<Seq<PostingView>>>,
) -> bool {
    &&& outs.len() <= keys.len()
    &&& forall|k: int|
        0 <= k < outs.len() ==> is_listed(
            decode,
            analyze,
            reader,
            skip,
            keys[k],
            #[trigger] outs[k],
        )
}

/// Whether the postings of every name of the dictionary can be had. Those of a field that
/// is left out do not count.
pub open spec fn can_be_listed<
    D: Fn(&SegmentInfo, u64, PostingFormat) -> Result<DecodedPostingList, LaurusError>,
    N: Fn(&str, &DataValue) -> Result<Vec<AnalyzedTerm>, LaurusError>,
>(decode: D, analyze: N, reader: SegmentReader, skip: Option<Seq<char>>) -> bool {
    exists|outs: Seq<Option<Seq<PostingView>>>| #[trigger]
        are_listed(decode, analyze, reader, skip, reader_keys(reader), outs) && outs.len()
            == reader_keys(reader).len()
}

/// Whether the postings of a name of the dictionary cannot be had, for this reason, while
/// those of the names before it can. Those of a field that is left out do not count.
pub open spec fn listing_failed<
    D: Fn(&SegmentInfo, u64, PostingFormat) -> Result<DecodedPostingList, LaurusError>,
    N: Fn(&str, &DataValue) -> Result<Vec<AnalyzedTerm>, LaurusError>,
>(decode: D, analyze: N, reader: SegmentReader, skip: Option<Seq<char>>, e: LaurusError) -> bool {
    exists|outs: Seq<Option<Seq<PostingView>>>| #[trigger]
        are_listed(decode, analyze, reader, skip, reader_keys(reader), outs) && outs.len()
            < reader_keys(reader).len() && is_unlisted(
            decode,
            analyze,
            reader,
            skip,
            reader_keys(reader)[outs.len() as int],
            e,
        )
}

/// Whether the postings of a name cannot be had, for this reason.
pub open spec fn is_unlisted<
    D: Fn(&SegmentInfo, u64, PostingFormat) -> Result<DecodedPostingList, LaurusError>,
    N: Fn(&str, &DataValue) -> Result<Vec<AnalyzedTerm>, LaurusError>,
>(
    decode: D,
    analyze: N,
    reader: SegmentReader,
    skip: Option<Seq<char>>,
    key: Seq<char>,
    e: LaurusError,
) -> bool {
    match key_parts(key) {
        None => false,
        Some((f, t)) => skip != Some(f) && reader::postings_fail(decode, analyze, reader, f, t, e),
    }
}

// ---------------------------------------------------------------------------
// Settings that are found out
// ---------------------------------------------------------------------------

/// Settings by field after a field's was found out: the first finding stays.
pub open spec fn pinned(s: Seq<(Seq<char>, bool)>, field: Seq<char>, setting: bool) -> Seq<
    (Seq<char>, bool),
> {
    if names::has_name(s, field) {
        s
    } else {
        names::with_value(s, field, setting)
    }
}

/// Settles a field's setting, unless it is settled.
pub fn pin(map: &mut FieldMap<bool>, field: &str, setting: bool)
    requires
        old(map).wf(),
    ensures
        final(map).wf(),
        final(map)@ == pinned(old(map)@, field@, setting),
{
    if !map.contains_key(field) {
        map.insert(field.to_string(), setting);
    }
}

/// Whether positions are kept, by field, after the postings of the first `n` names were
/// seen: the first posting of a field says it.
pub open spec fn positions_pinned(
    s: Seq<(Seq<char>, bool)>,
    keys: Seq<Seq<char>>,
    outs: Seq<Option<Seq<PostingView>>>,
    n: int,
) -> Seq<(Seq<char>, bool)>
    decreases n,
{
    if n <= 0 {
        s
    } else {
        let before = positions_pinned(s, keys, outs, n - 1);
        match (key_parts(keys[n - 1]), outs[n - 1]) {
            (Some((f, _)), Some(list)) => if list.len() > 0 {
                pinned(before, f, list[0].positions.len() > 0)
            } else {
                before
            },
            _ => before,
        }
    }
}

// ---------------------------------------------------------------------------
// Collecting terms
// ---------------------------------------------------------------------------

/// A posting that was read.
struct ReadPosting {
    doc_id: u64,
    frequency: u64,
    positions: Vec<u64>,
}

impl ReadPosting {
    spec fn shown(&self) -> PostingView {
        PostingView {
            doc_id: self.doc_id,
            frequency: self.frequency,
            positions: self.positions@,
        }
    }
}

spec fn read_views(s: Seq<ReadPosting>) -> Seq<PostingView> {
    s.map_values(|p: ReadPosting| p.shown())
}

/// Reads every posting.
fn read_all(postings: InvertedIndexPostingIterator) -> (r: Result<Vec<ReadPosting>, LaurusError>)
    requires
        postings.wf(),
        !postings.begun(),
    ensures
        r is Ok,
        read_views(r->Ok_0@) == postings.ahead(),
{
    let ghost all = postings.ahead();
    let mut it: InvertedIndexPostingIterator = postings;
    let mut r: Vec<ReadPosting> = Vec::new();
    let mut more: bool = match it.next() {
        Ok(b) => b,
        Err(e) => return Err(e),
    };
    assert(all.skip(0) =~= all);
    assert(read_views(r@) =~= all.take(0));
    while more
        invariant
            it.wf(),
            r@.len() <= all.len(),
            it.ahead() == all.skip(r@.len() as int),
            read_views(r@) == all.take(r@.len() as int),
            more == (it.ahead().len() > 0),
            more ==> it.begun(),
        decreases all.len() - r@.len(),
    {
        let ghost k = r@.len() as int;
        assert(it.ahead()[0] == all[k]);
        let positions: Vec<u64> = match it.positions() {
            Ok(p) => p,
            Err(e) => return Err(e),
        };
        let p = ReadPosting { doc_id: it.doc_id(), frequency: it.term_freq(), positions };
        let ghost before = r@;
        r.push(p);
        proof {
            assert(p.shown() =~= all[k]);
            assert(read_views(r@) =~= read_views(before).push(all[k]));
            assert(all.take(k + 1) =~= all.take(k).push(all[k]));
            assert(all.skip(k).drop_first() =~= all.skip(k + 1));
        }
        more = match it.next() {
            Ok(b) => b,
            Err(e) => return Err(e),
        };
    }
    assert(all.take(r@.len() as int) =~= all);
    Ok(r)
}

/// The terms that stand for a posting.
fn terms_of_posting(term: &str, p: &ReadPosting) -> (r: Vec<AnalyzedTerm>)
    ensures
        analyzed::term_views(r@) == posting_terms(term@, p.shown()),
        r@.len() > 0,
{
    let n: usize = p.positions.len();
    let mut r: Vec<AnalyzedTerm> = Vec::new();
    if n == 0 {
        r.push(
            AnalyzedTerm {
                term: term.to_string(),
                position: 0,
                frequency: p.frequency as u32,
                offset: (0, 0),
            },
        );
        assert(analyzed::term_views(r@) =~= posting_terms(term@, p.shown()));
        return r;
    }
    let mut i: usize = 0;
    while i < n
        invariant
            n == p.positions@.len(),
            i <= n,
            r@.len() == i,
            forall|j: int|
                0 <= j < i ==> #[trigger] r@[j]@ == (TermView {
                    term: term@,
                    position: p.positions@[j] as u32,
                    frequency: p.frequency as u32,
                    offset: (0, 0),
                }),
        decreases n - i,
    {
        r.push(
            AnalyzedTerm {
                term: term.to_string(),
                position: p.positions[i] as u32,
                frequency: p.frequency as u32,
                offset: (0, 0),
            },
        );
        i = i + 1;
    }
    assert(analyzed::term_views(r@) =~= posting_terms(term@, p.shown()));
    r
}

/// Whether a document is among those that are asked for.
pub open spec fn is_kept(owned: Option<Set<u64>>, id: u64) -> bool {
    match owned {
        Some(s) => s.contains(id),
        None => true,
    }
}

/// The documents that are asked for.
pub open spec fn owned_ids(owned: Option<&RoaringTreemap>) -> Option<Set<u64>> {
    match owned {
        Some(s) => Some(treemap::treemap_ids(*s)),
        None => None,
    }
}

fn keeps(owned: Option<&RoaringTreemap>, id: u64) -> (r: bool)
    ensures
        r == is_kept(owned_ids(owned), id),
{
    match owned {
        Some(s) => treemap::treemap_contains(s, id),
        None => true,
    }
}

/// Whether these are the terms of the postings of the first `n` names, by document and
/// field, of the documents that are asked for.
pub open spec fn terms_collected(
    m: Map<u64, FieldMap<Vec<AnalyzedTerm>>>,
    keys: Seq<Seq<char>>,
    outs: Seq<Option<Seq<PostingView>>>,
    n: int,
    owned: Option<Set<u64>>,
) -> bool {
    forall|id: u64, f: Seq<char>|
        analyzed::term_views(#[trigger] grouping::items_at(m, id, f)) == if is_kept(owned, id) {
            field_terms_of(keys, outs, n, id, f)
        } else {
            Seq::empty()
        }
}

/// Whether these are the terms of the first `n` names and, of the name behind them, of
/// the first `j` postings.
spec fn terms_underway(
    m: Map<u64, FieldMap<Vec<AnalyzedTerm>>>,
    keys: Seq<Seq<char>>,
    outs: Seq<Option<Seq<PostingView>>>,
    n: int,
    field: Seq<char>,
    term: Seq<char>,
    list: Seq<PostingView>,
    j: int,
    owned: Option<Set<u64>>,
) -> bool {
    forall|id: u64, f: Seq<char>|
        analyzed::term_views(#[trigger] grouping::items_at(m, id, f)) == if is_kept(owned, id) {
            if f == field {
                field_terms_of(keys, outs, n, id, f) + list_terms(term, list, j, id)
            } else {
                field_terms_of(keys, outs, n, id, f)
            }
        } else {
            Seq::empty()
        }
}

proof fn lemma_term_views_append(a: Seq<AnalyzedTerm>, b: Seq<AnalyzedTerm>)
    ensures
        analyzed::term_views(a + b) == analyzed::term_views(a) + analyzed::term_views(b),
{
    assert(analyzed::term_views(a + b) =~= analyzed::term_views(a) + analyzed::term_views(b));
}

/// Puts the terms of postings to the documents that are asked for.
fn group_postings(
    map: &mut Grouped<AnalyzedTerm>,
    field: &str,
    term: &str,
    list: &Vec<ReadPosting>,
    owned: Option<&RoaringTreemap>,
    Ghost(keys): Ghost<Seq<Seq<char>>>,
    Ghost(outs): Ghost<Seq<Option<Seq<PostingView>>>>,
    Ghost(n): Ghost<int>,
)
    requires
        grouping::grouped_wf(old(map)@),
        terms_collected(old(map)@, keys, outs, n, owned_ids(owned)),
    ensures
        grouping::grouped_wf(final(map)@),
        terms_underway(
            final(map)@,
            keys,
            outs,
            n,
            field@,
            term@,
            read_views(list@),
            list@.len() as int,
            owned_ids(owned),
        ),
{
    let ghost views = read_views(list@);
    let count: usize = list.len();
    let mut j: usize = 0;
    proof {
        assert forall|id: u64, f: Seq<char>|
            analyzed::term_views(#[trigger] grouping::items_at(map@, id, f)) == if is_kept(
                owned_ids(owned),
                id,
            ) {
                if f == field@ {
                    field_terms_of(keys, outs, n, id, f) + list_terms(term@, views, 0, id)
                } else {
                    field_terms_of(keys, outs, n, id, f)
                }
            } else {
                Seq::empty()
            } by {
            assert(field_terms_of(keys, outs, n, id, f) + Seq::<TermView>::empty()
                =~= field_terms_of(keys, outs, n, id, f));
        }
    }
    while j < count
        invariant
            count == list@.len(),
            j <= count,
            views == read_views(list@),
            grouping::grouped_wf(map@),
            terms_underway(
                map@,
                keys,
                outs,
                n,
                field@,
                term@,
                views,
                j as int,
                owned_ids(owned),
            ),
        decreases count - j,
    {
        let p: &ReadPosting = &list[j];
        assert(views[j as int] == p.shown());
        let ghost before = map@;
        if keeps(owned, p.doc_id) {
            let terms: Vec<AnalyzedTerm> = terms_of_posting(term, p);
            let ghost items = terms@;
            grouping::append_items(map, p.doc_id, field, terms);
            proof {
                assert forall|id: u64, f: Seq<char>|
                    analyzed::term_views(#[trigger] grouping::items_at(map@, id, f)) == if is_kept(
                        owned_ids(owned),
                        id,
                    ) {
                        if f == field@ {
                            field_terms_of(keys, outs, n, id, f) + list_terms(
                                term@,
                                views,
                                j + 1,
                                id,
                            )
                        } else {
                            field_terms_of(keys, outs, n, id, f)
                        }
                    } else {
                        Seq::empty()
                    } by {
                    let old_items = grouping::items_at(before, id, f);
                    if id == p.doc_id && f == field@ {
                        lemma_term_views_append(old_items, items);
                        assert(field_terms_of(keys, outs, n, id, f) + list_terms(
                            term@,
                            views,
                            j + 1,
                            id,
                        ) =~= field_terms_of(keys, outs, n, id, f) + list_terms(
                            term@,
                            views,
                            j as int,
                            id,
                        ) + posting_terms(term@, p.shown()));
                    }
                }
            }
        } else {
            proof {
                assert forall|id: u64, f: Seq<char>|
                    analyzed::term_views(#[trigger] grouping::items_at(map@, id, f)) == if is_kept(
                        owned_ids(owned),
                        id,
                    ) {
                        if f == field@ {
                            field_terms_of(keys, outs, n, id, f) + list_terms(
                                term@,
                                views,
                                j + 1,
                                id,
                            )
                        } else {
                            field_terms_of(keys, outs, n, id, f)
                        }
                    } else {
                        Seq::empty()
                    } by {
                    assert(grouping::items_at(before, id, f) == grouping::items_at(map@, id, f));
                }
            }
        }
        j = j + 1;
    }
}

/// What a name to leave out holds.
pub open spec fn skipped(skip: Option<&str>) -> Option<Seq<char>> {
    match skip {
        Some(f) => Some(f@),
        None => None,
    }
}

fn is_skipped(skip: Option<&str>, field: &str) -> (r: bool)
    ensures
        r == (skipped(skip) == Some(field@)),
{
    match skip {
        Some(f) => names::same_name(f, field),
        None => false,
    }
}

/// Collects the terms of the documents that are asked for, but those of a field that is
/// left out, and finds out which fields keep positions.
#[verifier::rlimit(60)]
fn collect_terms<
    D: Fn(&SegmentInfo, u64, PostingFormat) -> Result<DecodedPostingList, LaurusError>,
    N: Fn(&str, &DataValue) -> Result<Vec<AnalyzedTerm>, LaurusError>,
>(
    reader: &SegmentReader,
    skip: Option<&str>,
    owned: Option<&RoaringTreemap>,
    positions: &mut FieldMap<bool>,
    decode: &D,
    analyze: &N,
) -> (r: Result<(Grouped<AnalyzedTerm>, Ghost<Seq<Option<Seq<PostingView>>>>), LaurusError>)
    requires
        reader.wf(),
        old(positions).wf(),
        forall|s: &SegmentInfo, o: u64, f: PostingFormat| call_requires(*decode, (s, o, f)),
        segment_reader::decodes_well(*decode),
        forall|f: &str, v: &DataValue| call_requires(*analyze, (f, v)),
    ensures
        final(positions).wf(),
        match r {
            Ok((m, outs)) => {
                let keys = reader_keys(*reader);
                &&& reader.dictionary() is Ok
                &&& grouping::grouped_wf(m@)
                &&& are_listed(*decode, *analyze, *reader, skipped(skip), keys, outs@)
                &&& outs@.len() == keys.len()
                &&& terms_collected(m@, keys, outs@, keys.len() as int, owned_ids(owned))
                &&& final(positions)@ == positions_pinned(
                    old(positions)@,
                    keys,
                    outs@,
                    keys.len() as int,
                )
            },
            Err(e) => match reader.dictionary() {
                Err(d) => e == d,
                Ok(_) => listing_failed(*decode, *analyze, *reader, skipped(skip), e),
            },
        },
{
    let mut map: Grouped<AnalyzedTerm> = BTreeMap::new();
    let ghost keys = reader_keys(*reader);
    let ghost mut outs: Seq<Option<Seq<PostingView>>> = Seq::empty();
    proof {
        assert forall|id: u64, f: Seq<char>|
            analyzed::term_views(#[trigger] grouping::items_at(map@, id, f)) == if is_kept(
                owned_ids(owned),
                id,
            ) {
                field_terms_of(keys, outs, 0, id, f)
            } else {
                Seq::empty()
            } by {
            assert(analyzed::term_views(grouping::items_at(map@, id, f)) =~= Seq::empty());
        }
    }
    let dict: &TermDictionary = match reader.term_dictionary() {
        Err(e) => return Err(e),
        Ok(None) => return Ok((map, Ghost(outs))),
        Ok(Some(d)) => d,
    };
    assert(keys == keys_of(*dict));
    let n: usize = dict.terms.len();
    let mut k: usize = 0;
    while k < n
        invariant
            reader.wf(),
            positions.wf(),
            forall|s: &SegmentInfo, o: u64, f: PostingFormat| call_requires(*decode, (s, o, f)),
            segment_reader::decodes_well(*decode),
            forall|f: &str, v: &DataValue| call_requires(*analyze, (f, v)),
            reader.dictionary() == Ok::<Option<TermDictionary>, LaurusError>(Some(*dict)),
            keys == reader_keys(*reader),
            keys == keys_of(*dict),
            n == dict.terms@.len(),
            n == keys.len(),
            k <= n,
            outs.len() == k,
            grouping::grouped_wf(map@),
            are_listed(*decode, *analyze, *reader, skipped(skip), keys, outs),
            terms_collected(map@, keys, outs, k as int, owned_ids(owned)),
            positions@ == positions_pinned(old(positions)@, keys, outs, k as int),
        decreases n - k,
    {
        let key: &String = dict.terms.name_at(k);
        assert(key@ == keys[k as int]);
        let ghost before = map@;
        let ghost earlier = outs;
        let ghost mut out: Option<Seq<PostingView>> = None;
        if let Some((field, term)) = split_key(key.as_str()) {
            if !is_skipped(skip, field) {
                match reader.postings(field, term, decode, analyze) {
                    Err(e) => {
                        assert(is_unlisted(
                            *decode,
                            *analyze,
                            *reader,
                            skipped(skip),
                            keys[k as int],
                            e,
                        ));
                        assert(are_listed(
                            *decode,
                            *analyze,
                            *reader,
                            skipped(skip),
                            reader_keys(*reader),
                            outs,
                        ));
                        return Err(e);
                    },
                    Ok(None) => {
                        assert(reader::postings_are(
                            *decode,
                            *analyze,
                            *reader,
                            field@,
                            term@,
                            None,
                        ));
                    },
                    Ok(Some(it)) => {
                        proof {
                            out = Some(it.ahead());
                            assert(reader::postings_are(
                                *decode,
                                *analyze,
                                *reader,
                                field@,
                                term@,
                                out,
                            ));
                        }
                        let list: Vec<ReadPosting> = match read_all(it) {
                            Ok(l) => l,
                            Err(e) => return Err(e),
                        };
                        if list.len() > 0 {
                            assert(read_views(list@)[0] == list@[0].shown());
                            pin(positions, field, list[0].positions.len() > 0);
                        }
                        group_postings(
                            &mut map,
                            field,
                            term,
                            &list,
                            owned,
                            Ghost(keys),
                            Ghost(outs),
                            Ghost(k as int),
                        );
                    },
                }
            }
        }
        proof {
            outs = outs.push(out);
            lemma_extend_listed(keys, earlier, out, old(positions)@);
            assert(is_listed(*decode, *analyze, *reader, skipped(skip), keys[k as int], out));
            assert forall|id: u64, f: Seq<char>|
                analyzed::term_views(#[trigger] grouping::items_at(map@, id, f)) == if is_kept(
                    owned_ids(owned),
                    id,
                ) {
                    field_terms_of(keys, outs, k + 1, id, f)
                } else {
                    Seq::empty()
                } by {
                lemma_field_terms_extend(keys, earlier, out, id, f);
            }
        }
        k = k + 1;
    }
    Ok((map, Ghost(outs)))
}

/// What is said of the first names does not depend on those behind them.
proof fn lemma_field_terms_extend(
    keys: Seq<Seq<char>>,
    outs: Seq<Option<Seq<PostingView>>>,
    out: Option<Seq<PostingView>>,
    id: u64,
    f: Seq<char>,
)
    ensures
        field_terms_of(keys, outs.push(out), outs.len() as int, id, f) == field_terms_of(
            keys,
            outs,
            outs.len() as int,
            id,
            f,
        ),
{
    lemma_field_terms_same(keys, outs, outs.push(out), outs.len() as int, id, f);
}

proof fn lemma_field_terms_same(
    keys: Seq<Seq<char>>,
    a: Seq<Option<Seq<PostingView>>>,
    b: Seq<Option<Seq<PostingView>>>,
    n: int,
    id: u64,
    f: Seq<char>,
)
    requires
        n <= a.len(),
        n <= b.len(),
        forall|i: int| 0 <= i < n ==> #[trigger] a[i] == b[i],
    ensures
        field_terms_of(keys, a, n, id, f) == field_terms_of(keys, b, n, id, f),
    decreases n,
{
    if n > 0 {
        lemma_field_terms_same(keys, a, b, n - 1, id, f);
        assert(a[n - 1] == b[n - 1]);
    }
}

proof fn lemma_positions_same(
    s: Seq<(Seq<char>, bool)>,
    keys: Seq<Seq<char>>,
    a: Seq<Option<Seq<PostingView>>>,
    b: Seq<Option<Seq<PostingView>>>,
    n: int,
)
    requires
        n <= a.len(),
        n <= b.len(),
        forall|i: int| 0 <= i < n ==> #[trigger] a[i] == b[i],
    ensures
        positions_pinned(s, keys, a, n) == positions_pinned(s, keys, b, n),
    decreases n,
{
    if n > 0 {
        lemma_positions_same(s, keys, a, b, n - 1);
        assert(a[n - 1] == b[n - 1]);
    }
}

proof fn lemma_extend_listed(
    keys: Seq<Seq<char>>,
    outs: Seq<Option<Seq<PostingView>>>,
    out: Option<Seq<PostingView>>,
    s: Seq<(Seq<char>, bool)>,
)
    ensures
        positions_pinned(s, keys, outs.push(out), outs.len() as int) == positions_pinned(
            s,
            keys,
            outs,
            outs.len() as int,
        ),
{
    lemma_positions_same(s, keys, outs, outs.push(out), outs.len() as int);
}

// ---------------------------------------------------------------------------
// Collecting points
// ---------------------------------------------------------------------------

/// The documents with their points that a walk of a tree comes upon.
pub open spec fn tree_entries(t: BKDReader) -> Seq<(u64, Seq<u64>)> {
    bkd_tree::walk::<CollectPointsVisitor>(t.tree(), Seq::empty()).0
}

/// The points of a document among the first `n` entries.
pub open spec fn entry_points(entries: Seq<(u64, Seq<u64>)>, n: int, id: u64) -> Seq<Seq<u64>>
    decreases n,
{
    if n <= 0 {
        Seq::empty()
    } else if entries[n - 1].0 == id {
        entry_points(entries, n - 1, id).push(entries[n - 1].1)
    } else {
        entry_points(entries, n - 1, id)
    }
}

/// The points of a field of a document in the first `n` trees.
pub open spec fn field_points_of(
    trees: Seq<(Seq<char>, Result<BKDReader, LaurusError>)>,
    skip: Option<Seq<char>>,
    n: int,
    id: u64,
    field: Seq<char>,
) -> Seq<Seq<u64>>
    decreases n,
{
    if n <= 0 {
        Seq::empty()
    } else {
        let before = field_points_of(trees, skip, n - 1, id, field);
        if trees[n - 1].0 == field && skip != Some(field) {
            let entries = tree_entries(trees[n - 1].1->Ok_0);
            before + entry_points(entries, entries.len() as int, id)
        } else {
            before
        }
    }
}

/// Whether a document is among those whose points are kept.
pub open spec fn has_points(owned: Option<Set<u64>>, deleted: Set<u64>, id: u64) -> bool {
    is_kept(owned, id) && !deleted.contains(id)
}

/// Whether these are the points of the first `n` trees, by document and field.
pub open spec fn points_collected(
    m: Map<u64, FieldMap<Vec<Vec<u64>>>>,
    trees: Seq<(Seq<char>, Result<BKDReader, LaurusError>)>,
    skip: Option<Seq<char>>,
    n: int,
    owned: Option<Set<u64>>,
    deleted: Set<u64>,
) -> bool {
    forall|id: u64, f: Seq<char>|
        parser::point_views(#[trigger] grouping::items_at(m, id, f)) == if has_points(
            owned,
            deleted,
            id,
        ) {
            field_points_of(trees, skip, n, id, f)
        } else {
            Seq::empty()
        }
}

spec fn points_underway(
    m: Map<u64, FieldMap<Vec<Vec<u64>>>>,
    trees: Seq<(Seq<char>, Result<BKDReader, LaurusError>)>,
    skip: Option<Seq<char>>,
    n: int,
    field: Seq<char>,
    entries: Seq<(u64, Seq<u64>)>,
    j: int,
    owned: Option<Set<u64>>,
    deleted: Set<u64>,
) -> bool {
    forall|id: u64, f: Seq<char>|
        parser::point_views(#[trigger] grouping::items_at(m, id, f)) == if has_points(
            owned,
            deleted,
            id,
        ) {
            if f == field {
                field_points_of(trees, skip, n, id, f) + entry_points(entries, j, id)
            } else {
                field_points_of(trees, skip, n, id, f)
            }
        } else {
            Seq::empty()
        }
}

/// The deleted documents, where any are recorded.
pub open spec fn deleted_ids(deleted: Option<&RoaringTreemap>) -> Set<u64> {
    match deleted {
        Some(s) => treemap::treemap_ids(*s),
        None => Set::empty(),
    }
}

fn is_deleted(deleted: Option<&RoaringTreemap>, id: u64) -> (r: bool)
    ensures
        r == deleted_ids(deleted).contains(id),
{
    match deleted {
        Some(s) => treemap::treemap_contains(s, id),
        None => false,
    }
}

proof fn lemma_point_views_append(a: Seq<Vec<u64>>, b: Seq<Vec<u64>>)
    ensures
        parser::point_views(a + b) == parser::point_views(a) + parser::point_views(b),
{
    assert(parser::point_views(a + b) =~= parser::point_views(a) + parser::point_views(b));
}

/// Puts points to the documents that are asked for.
fn group_points(
    map: &mut Grouped<Vec<u64>>,
    field: &str,
    entries: &Vec<(u64, Vec<u64>)>,
    owned: Option<&RoaringTreemap>,
    deleted: Option<&RoaringTreemap>,
    Ghost(trees): Ghost<Seq<(Seq<char>, Result<BKDReader, LaurusError>)>>,
    Ghost(skip): Ghost<Option<Seq<char>>>,
    Ghost(n): Ghost<int>,
)
    requires
        grouping::grouped_wf(old(map)@),
        points_collected(old(map)@, trees, skip, n, owned_ids(owned), deleted_ids(deleted)),
    ensures
        grouping::grouped_wf(final(map)@),
        points_underway(
            final(map)@,
            trees,
            skip,
            n,
            field@,
            visitor::entries_view(entries@),
            entries@.len() as int,
            owned_ids(owned),
            deleted_ids(deleted),
        ),
{
    let ghost views = visitor::entries_view(entries@);
    let ghost o = owned_ids(owned);
    let ghost d = deleted_ids(deleted);
    let count: usize = entries.len();
    let mut j: usize = 0;
    proof {
        assert forall|id: u64, f: Seq<char>|
            parser::point_views(#[trigger] grouping::items_at(map@, id, f)) == if has_points(
                o,
                d,
                id,
            ) {
                if f == field@ {
                    field_points_of(trees, skip, n, id, f) + entry_points(views, 0, id)
                } else {
                    field_points_of(trees, skip, n, id, f)
                }
            } else {
                Seq::empty()
            } by {
            assert(field_points_of(trees, skip, n, id, f) + Seq::<Seq<u64>>::empty()
                =~= field_points_of(trees, skip, n, id, f));
        }
    }
    while j < count
        invariant
            count == entries@.len(),
            j <= count,
            views == visitor::entries_view(entries@),
            o == owned_ids(owned),
            d == deleted_ids(deleted),
            grouping::grouped_wf(map@),
            points_underway(map@, trees, skip, n, field@, views, j as int, o, d),
        decreases count - j,
    {
        let entry: &(u64, Vec<u64>) = &entries[j];
        let id: u64 = entry.0;
        assert(views[j as int] == (id, entry.1@));
        let ghost before = map@;
        let ghost point = entry.1@;
        let wanted: bool = !is_deleted(deleted, id) && keeps(owned, id);
        if wanted {
            let copy: Vec<u64> = data::copy_vec(&entry.1);
            let items: Vec<Vec<u64>> = vec![copy];
            let ghost new_items = items@;
            grouping::append_items(map, id, field, items);
            proof {
                assert forall|i: u64, f: Seq<char>|
                    parser::point_views(#[trigger] grouping::items_at(map@, i, f))
                        == if has_points(o, d, i) {
                        if f == field@ {
                            field_points_of(trees, skip, n, i, f) + entry_points(views, j + 1, i)
                        } else {
                            field_points_of(trees, skip, n, i, f)
                        }
                    } else {
                        Seq::empty()
                    } by {
                    let old_items = grouping::items_at(before, i, f);
                    if i == id && f == field@ {
                        lemma_point_views_append(old_items, new_items);
                        assert(parser::point_views(new_items) =~= seq![point]);
                        assert(field_points_of(trees, skip, n, i, f) + entry_points(
                            views,
                            j + 1,
                            i,
                        ) =~= field_points_of(trees, skip, n, i, f) + entry_points(
                            views,
                            j as int,
                            i,
                        ) + seq![point]);
                    }
                }
            }
        } else {
            proof {
                assert forall|i: u64, f: Seq<char>|
                    parser::point_views(#[trigger] grouping::items_at(map@, i, f))
                        == if has_points(o, d, i) {
                        if f == field@ {
                            field_points_of(trees, skip, n, i, f) + entry_points(views, j + 1, i)
                        } else {
                            field_points_of(trees, skip, n, i, f)
                        }
                    } else {
                        Seq::empty()
                    } by {
                    assert(grouping::items_at(before, i, f) == grouping::items_at(map@, i, f));
                }
            }
        }
        j = j + 1;
    }
}

/// Whether the points of some field cannot be had, for this reason: its tree cannot be
/// opened or cannot be walked, while those before it can.
pub open spec fn points_failed(
    trees: Seq<(Seq<char>, Result<BKDReader, LaurusError>)>,
    skip: Option<Seq<char>>,
    e: LaurusError,
) -> bool {
    exists|i: int|
        0 <= i < trees.len() && trees_walk(trees, skip, i) && skip != Some(
            (#[trigger] trees[i]).0,
        ) && match trees[i].1 {
            Err(err) => err == e,
            Ok(t) => bkd_tree::walk::<CollectPointsVisitor>(t.tree(), Seq::empty()).1 == Err::<
                (),
                LaurusError,
            >(e),
        }
}

/// Whether every tree but that of the field that is left out can be walked.
pub open spec fn trees_walk(
    trees: Seq<(Seq<char>, Result<BKDReader, LaurusError>)>,
    skip: Option<Seq<char>>,
    n: int,
) -> bool {
    forall|i: int|
        0 <= i < n && skip != Some((#[trigger] trees[i]).0) ==> trees[i].1 is Ok
            && bkd_tree::walk::<CollectPointsVisitor>(
            trees[i].1->Ok_0.tree(),
            Seq::empty(),
        ).1 is Ok
}

/// Collects the points of the documents that are asked for, but those of a field that is
/// left out.
#[verifier::rlimit(40)]
fn collect_points(
    reader: &SegmentReader,
    skip: Option<&str>,
    owned: Option<&RoaringTreemap>,
    deleted: Option<&RoaringTreemap>,
) -> (r: Result<Grouped<Vec<u64>>, LaurusError>)
    requires
        reader.wf(),
    ensures
        match r {
            Ok(m) => {
                &&& grouping::grouped_wf(m@)
                &&& trees_walk(reader.trees(), skipped(skip), reader.trees().len() as int)
                &&& points_collected(
                    m@,
                    reader.trees(),
                    skipped(skip),
                    reader.trees().len() as int,
                    owned_ids(owned),
                    deleted_ids(deleted),
                )
            },
            Err(e) => points_failed(reader.trees(), skipped(skip), e),
        },
{
    let ghost trees = reader.trees();
    let ghost s = skipped(skip);
    let mut map: Grouped<Vec<u64>> = BTreeMap::new();
    let fields: Vec<String> = reader.bkd_field_names();
    let n: usize = fields.len();
    let mut k: usize = 0;
    proof {
        assert forall|id: u64, f: Seq<char>|
            parser::point_views(#[trigger] grouping::items_at(map@, id, f)) == if has_points(
                owned_ids(owned),
                deleted_ids(deleted),
                id,
            ) {
                field_points_of(trees, s, 0, id, f)
            } else {
                Seq::empty()
            } by {
            assert(parser::point_views(grouping::items_at(map@, id, f)) =~= Seq::empty());
        }
        reader.lemma_trees_ascend();
    }
    while k < n
        invariant
            reader.wf(),
            trees == reader.trees(),
            names::names_ascend(trees),
            s == skipped(skip),
            n == fields@.len(),
            n == trees.len(),
            forall|i: int| 0 <= i < n ==> #[trigger] fields@[i]@ == trees[i].0,
            k <= n,
            grouping::grouped_wf(map@),
            trees_walk(trees, s, k as int),
            points_collected(
                map@,
                trees,
                s,
                k as int,
                owned_ids(owned),
                deleted_ids(deleted),
            ),
        decreases n - k,
    {
        let field: &str = fields[k].as_str();
        assert(field@ == trees[k as int].0);
        let ghost before = map@;
        proof {
            names::lemma_value_at(trees, field@, k as int);
        }
        if !is_skipped(skip, field) {
            match reader.get_bkd_tree(field) {
                Err(e) => {
                    assert(trees[k as int].1 == Err::<BKDReader, LaurusError>(e));
                    return Err(e);
                },
                Ok(None) => {},
                Ok(Some(tree)) => {
                    let mut visitor: CollectPointsVisitor = CollectPointsVisitor::new();
                    let walked: Result<(), LaurusError> = tree.intersect(&mut visitor);
                    match walked {
                        Err(e) => {
                            assert(trees[k as int].1 == Ok::<BKDReader, LaurusError>(*tree));
                            return Err(e);
                        },
                        Ok(_) => {},
                    }
                    assert(visitor.state() == tree_entries(*tree));
                    group_points(
                        &mut map,
                        field,
                        &visitor.entries,
                        owned,
                        deleted,
                        Ghost(trees),
                        Ghost(s),
                        Ghost(k as int),
                    );
                },
            }
        }
        proof {
            assert forall|id: u64, f: Seq<char>|
                parser::point_views(#[trigger] grouping::items_at(map@, id, f)) == if has_points(
                    owned_ids(owned),
                    deleted_ids(deleted),
                    id,
                ) {
                    field_points_of(trees, s, k + 1, id, f)
                } else {
                    Seq::empty()
                } by {
            }
        }
        k = k + 1;
    }
    Ok(map)
}

// ---------------------------------------------------------------------------
// Documents
// ---------------------------------------------------------------------------

/// The length of a field of a document that is not deleted.
pub open spec fn length_at(reader: SegmentReader, id: u64, field: Seq<char>) -> Option<u32> {
    match (reader.gone(), reader.measures()) {
        (Ok(g), Ok(n)) => if g.contains(id) {
            None
        } else {
            n.length_of(id, field)
        },
        _ => None,
    }
}

/// Whether a name is in a list.
pub open spec fn is_named(names: Seq<String>, name: Seq<char>) -> bool {
    exists|i: int| 0 <= i < names.len() && #[trigger] names[i]@ == name
}

/// Whether a segment recorded lengths of a field.
pub open spec fn is_recorded(reader: SegmentReader, field: Seq<char>) -> bool {
    reader.measures() is Ok && names::has_name(reader.measures()->Ok_0.all_stats(), field)
}

/// The lengths of the fields of a document that are named, but of a field that is left
/// out.
fn lengths_of(reader: &SegmentReader, id: u64, asked: &Vec<String>, skip: Option<&str>) -> (r: Result<
    FieldMap<u32>,
    LaurusError,
>)
    ensures
        match r {
            Ok(m) => m.wf() && forall|f: Seq<char>| #[trigger]
                names::value_of(m@, f) == if skipped(skip) != Some(f) && is_named(asked@, f) {
                    length_at(*reader, id, f)
                } else {
                    None
                },
            Err(e) => (reader.gone() is Err && reader.gone()->Err_0 == e) || (reader.measures() is Err
                && reader.measures()->Err_0 == e),
        },
{
    let mut out: FieldMap<u32> = FieldMap::new();
    let n: usize = asked.len();
    let mut k: usize = 0;
    proof {
        assert forall|f: Seq<char>| #[trigger] names::value_of(out@, f) == if skipped(skip) != Some(f)
            && is_named(asked@.take(0), f) {
            length_at(*reader, id, f)
        } else {
            None
        } by {
            assert(!names::has_name(out@, f));
        }
    }
    while k < n
        invariant
            n == asked@.len(),
            k <= n,
            out.wf(),
            forall|f: Seq<char>| #[trigger]
                names::value_of(out@, f) == if skipped(skip) != Some(f) && is_named(
                    asked@.take(k as int),
                    f,
                ) {
                    length_at(*reader, id, f)
                } else {
                    None
                },
        decreases n - k,
    {
        let name: &String = &asked[k];
        let ghost before = out@;
        let ghost done = asked@.take(k as int);
        let ghost more = asked@.take(k + 1);
        if !is_skipped(skip, name.as_str()) {
            match reader.field_length(id, name.as_str()) {
                Err(e) => return Err(e),
                Ok(None) => {},
                Ok(Some(length)) => {
                    proof {
                        names::lemma_with_value(before, name@, length);
                    }
                    out.insert(name.clone(), length);
                },
            }
        }
        proof {
            assert forall|f: Seq<char>| #[trigger] names::value_of(out@, f) == if skipped(skip) != Some(
                f,
            ) && is_named(more, f) {
                length_at(*reader, id, f)
            } else {
                None
            } by {
                assert(more[k as int]@ == name@);
                if f != name@ {
                    assert(names::value_of(out@, f) == names::value_of(before, f));
                    if is_named(done, f) {
                        let i = choose|i: int| 0 <= i < done.len() && #[trigger] done[i]@ == f;
                        assert(more[i]@ == f);
                    }
                    if is_named(more, f) {
                        let i = choose|i: int| 0 <= i < more.len() && #[trigger] more[i]@ == f;
                        assert(done[i]@ == f);
                    }
                } else {
                    assert(is_named(more, f));
                    if is_named(done, f) && skipped(skip) != Some(f) {
                        assert(names::value_of(before, f) == length_at(*reader, id, f));
                    }
                }
            }
        }
        k = k + 1;
    }
    assert(asked@.take(n as int) =~= asked@);
    Ok(out)
}

/// The names of fields that have terms and of those whose lengths were recorded.
fn names_with_lengths(terms: &FieldMap<Vec<AnalyzedTerm>>, recorded: &Vec<String>) -> (r: Vec<String>)
    ensures
        forall|f: Seq<char>| #[trigger]
            is_named(r@, f) <==> names::has_name(terms@, f) || is_named(recorded@, f),
{
    let mut r: Vec<String> = data::copy_strings(recorded);
    let ghost first = r@;
    let n: usize = terms.len();
    let mut i: usize = 0;
    proof {
        assert(forall|j: int| 0 <= j < first.len() ==> data::texts(first)[j] == #[trigger] first[j]@);
        assert(forall|j: int|
            0 <= j < recorded@.len() ==> data::texts(recorded@)[j] == #[trigger] recorded@[j]@);
    }
    while i < n
        invariant
            n == terms@.len(),
            i <= n,
            r@.len() == first.len() + i,
            forall|j: int| 0 <= j < first.len() ==> #[trigger] r@[j] == first[j],
            forall|j: int| 0 <= j < i ==> #[trigger] terms@[j].0 == r@[first.len() + j]@,
        decreases n - i,
    {
        r.push(terms.name_at(i).clone());
        i = i + 1;
    }
    proof {
        assert forall|f: Seq<char>| #[trigger]
            is_named(r@, f) <==> names::has_name(terms@, f) || is_named(recorded@, f) by {
            if is_named(r@, f) {
                let j = choose|j: int| 0 <= j < r@.len() && #[trigger] r@[j]@ == f;
                if j < first.len() {
                    assert(r@[j] == first[j]);
                    assert(recorded@[j]@ == data::texts(recorded@)[j]);
                    assert(recorded@[j]@ == f);
                } else {
                    assert(terms@[j - first.len()].0 == f);
                }
            }
            if names::has_name(terms@, f) {
                let j = choose|j: int| 0 <= j < terms@.len() && #[trigger] terms@[j].0 == f;
                assert(r@[first.len() + j]@ == f);
            }
            if is_named(recorded@, f) {
                let j = choose|j: int| 0 <= j < recorded@.len() && #[trigger] recorded@[j]@ == f;
                assert(first[j]@ == data::texts(first)[j]);
                assert(r@[j]@ == f);
            }
        }
    }
    r
}

/// A sequence, where it is not empty.
pub open spec fn nonempty<T>(s: Seq<T>) -> Option<Seq<T>> {
    if s.len() > 0 {
        Some(s)
    } else {
        None
    }
}

/// Whether a field of a document was carried over: its terms are those of the postings,
/// its points those of the point trees, and its length is that which was recorded.
pub open spec fn is_carried(
    reader: SegmentReader,
    skip: Option<Seq<char>>,
    outs: Seq<Option<Seq<PostingView>>>,
    id: u64,
    a: AnalyzedDocument,
    f: Seq<char>,
) -> bool {
    let keys = reader_keys(reader);
    &&& parser::terms_in(a, f) == nonempty(field_terms_of(keys, outs, keys.len() as int, id, f))
    &&& parser::points_in(a, f) == nonempty(
        field_points_of(reader.trees(), skip, reader.trees().len() as int, id, f),
    )
    &&& names::value_of(a.field_lengths@, f) == if parser::terms_in(a, f) is Some || is_recorded(
        reader,
        f,
    ) {
        length_at(reader, id, f)
    } else {
        None
    }
}

/// Whether a document was carried over with all its fields.
pub open spec fn is_replayed(
    reader: SegmentReader,
    outs: Seq<Option<Seq<PostingView>>>,
    id: u64,
    a: AnalyzedDocument,
) -> bool {
    &&& a.wf()
    &&& data::fields_view(a.stored_fields@) == reader.documents()->Ok_0[id]
    &&& forall|f: Seq<char>| #[trigger] is_carried(reader, None, outs, id, a, f)
}

/// The items of a document, taken out.
fn take_items<T>(map: &mut Grouped<T>, id: u64) -> (r: FieldMap<Vec<T>>)
    requires
        grouping::grouped_wf(old(map)@),
    ensures
        grouping::grouped_wf(final(map)@),
        grouping::fields_full(r),
        forall|f: Seq<char>| #[trigger]
            grouping::items_of(r, f) == grouping::items_at(old(map)@, id, f),
        forall|i: u64, f: Seq<char>|
            i != id ==> #[trigger] grouping::items_at(final(map)@, i, f) == grouping::items_at(
                old(map)@,
                i,
                f,
            ),
{
    let ghost before = map@;
    match map.remove(&id) {
        Some(fields) => {
            assert(map@ =~= before.remove(id));
            fields
        },
        None => {
            assert(map@ =~= before);
            let fields: FieldMap<Vec<T>> = FieldMap::new();
            proof {
                assert forall|f: Seq<char>| #[trigger] names::value_of(fields@, f) is None by {
                    grouping::lemma_no_items(fields, f);
                }
            }
            fields
        },
    }
}

// ---------------------------------------------------------------------------
// Columns
// ---------------------------------------------------------------------------

/// Whether `candidate` may say this of the value of a field.
pub open spec fn says_of<C: Fn(&DataValue) -> bool>(
    candidate: C,
    doc: FieldsView,
    field: Seq<char>,
    b: bool,
) -> bool {
    exists|v: &DataValue| #[trigger]
        call_ensures(candidate, (v,), b) && names::value_of(doc, field) == Some(v@)
}

/// Whether the setting of a field is right after a document was seen: one that was
/// settled stays; else it is settled by whether the segment has a column, where the
/// value of the field is one that a column can hold.
pub open spec fn column_noted<C: Fn(&DataValue) -> bool>(
    candidate: C,
    reader: SegmentReader,
    doc: FieldsView,
    before: Seq<(Seq<char>, bool)>,
    after: Seq<(Seq<char>, bool)>,
    field: Seq<char>,
) -> bool {
    match names::value_of(before, field) {
        Some(b) => names::value_of(after, field) == Some(b),
        None => match names::value_of(after, field) {
            Some(b) => b == reader::has_column(reader, field) && says_of(candidate, doc, field, true),
            None => names::value_of(doc, field) is None || says_of(candidate, doc, field, false),
        },
    }
}

/// Settles, for the fields of a document whose values a column can hold, whether they
/// have one.
fn note_columns<C: Fn(&DataValue) -> bool>(
    reader: &SegmentReader,
    doc: &Document,
    columns: &mut FieldMap<bool>,
    candidate: &C,
)
    requires
        doc.wf(),
        old(columns).wf(),
        forall|v: &DataValue| call_requires(*candidate, (v,)),
    ensures
        final(columns).wf(),
        forall|f: Seq<char>| #[trigger]
            column_noted(*candidate, *reader, doc@, old(columns)@, final(columns)@, f),
{
    let ghost first = columns@;
    let ghost all = doc.fields@;
    let n: usize = doc.fields.len();
    let mut k: usize = 0;
    proof {
        assert forall|f: Seq<char>| #[trigger]
            column_noted(
                *candidate,
                *reader,
                data::fields_view(all.take(0)),
                first,
                columns@,
                f,
            ) by {
            assert(!names::has_name(data::fields_view(all.take(0)), f));
        }
    }
    while k < n
        invariant
            doc.wf(),
            columns.wf(),
            forall|v: &DataValue| call_requires(*candidate, (v,)),
            all == doc.fields@,
            n == all.len(),
            k <= n,
            forall|f: Seq<char>| #[trigger]
                column_noted(
                    *candidate,
                    *reader,
                    data::fields_view(all.take(k as int)),
                    first,
                    columns@,
                    f,
                ),
        decreases n - k,
    {
        let name: &String = doc.fields.name_at(k);
        let value: &DataValue = doc.fields.value_at(k);
        let ghost before = columns@;
        let ghost done = data::fields_view(all.take(k as int));
        let ghost more = data::fields_view(all.take(k + 1));
        proof {
            assert(more =~= done.push((name@, value@)));
            assert(names::names_ascend(all.take(k + 1)));
            data::lemma_fields_view_ascend(all.take(k + 1));
            assert(column_noted(*candidate, *reader, done, first, columns@, name@));
            names::lemma_value_of_push(done, (name@, value@), name@);
        }
        let held: bool = (*candidate)(value);
        if held {
            let has: bool = reader.has_doc_values(name.as_str());
            proof {
                names::lemma_with_value(before, name@, has);
            }
            pin(columns, name.as_str(), has);
        }
        proof {
            assert(call_ensures(*candidate, (value,), held));
            assert(says_of(*candidate, more, name@, held));
            assert forall|f: Seq<char>| #[trigger]
                column_noted(*candidate, *reader, more, first, columns@, f) by {
                assert(column_noted(*candidate, *reader, done, first, before, f));
                names::lemma_value_of_push(done, (name@, value@), f);
                if f != name@ {
                    assert(names::value_of(more, f) == names::value_of(done, f));
                    assert(names::value_of(columns@, f) == names::value_of(before, f));
                    if says_of(*candidate, done, f, true) {
                        let v = choose|v: &DataValue| #[trigger]
                            call_ensures(*candidate, (v,), true) && names::value_of(done, f) == Some(
                                v@,
                            );
                        assert(call_ensures(*candidate, (v,), true));
                        assert(says_of(*candidate, more, f, true));
                    }
                    if says_of(*candidate, done, f, false) {
                        let v = choose|v: &DataValue| #[trigger]
                            call_ensures(*candidate, (v,), false) && names::value_of(done, f) == Some(
                                v@,
                            );
                        assert(call_ensures(*candidate, (v,), false));
                        assert(says_of(*candidate, more, f, false));
                    }
                }
            }
        }
        k = k + 1;
    }
    assert(all.take(n as int) =~= all);
}

// ---------------------------------------------------------------------------
// Replaying a segment
// ---------------------------------------------------------------------------

/// What a stored document holds.
pub open spec fn stored_at(reader: SegmentReader, id: u64) -> FieldsView {
    reader.documents()->Ok_0[id]
}

/// Whether a document is there and deleted neither by this record nor by that of the
/// segment.
pub open spec fn is_live(reader: SegmentReader, deleted: Set<u64>, id: u64) -> bool {
    !deleted.contains(id) && reader.live_document(id) is Ok && reader.live_document(id)->Ok_0 is Some
}

/// Says of a document whether it is live and asked for.
pub open spec fn is_chosen(
    reader: SegmentReader,
    deleted: Set<u64>,
    owned: Option<Set<u64>>,
) -> spec_fn(u64) -> bool {
    |id: u64| is_live(reader, deleted, id) && is_kept(owned, id)
}

/// The ids of the stored documents in ascending order.
pub open spec fn stored_ids(reader: SegmentReader) -> Seq<u64> {
    sort::in_order(reader.documents()->Ok_0.dom())
}

/// The live documents that are asked for, in ascending order.
pub open spec fn chosen_ids(reader: SegmentReader, deleted: Set<u64>, owned: Option<Set<u64>>) -> Seq<
    u64,
> {
    stored_ids(reader).filter(is_chosen(reader, deleted, owned))
}

/// The chosen documents ascend, and are those of which the choice holds.
pub proof fn lemma_chosen_ids(reader: SegmentReader, deleted: Set<u64>, owned: Option<Set<u64>>)
    requires
        reader.documents() is Ok,
    ensures
        sort::ascends(chosen_ids(reader, deleted, owned)),
        forall|id: u64| #[trigger]
            chosen_ids(reader, deleted, owned).contains(id) <==> is_chosen(reader, deleted, owned)(id),
{
    let all = stored_ids(reader);
    let keep = is_chosen(reader, deleted, owned);
    sort::lemma_in_order_of(reader.documents()->Ok_0.dom());
    lemma_filter_ascends(all, keep);
    assert forall|id: u64| #[trigger] chosen_ids(reader, deleted, owned).contains(id) <==> keep(id) by {
        lemma_filter_within(all, keep, id);
        assert(all.to_set().contains(id) <==> all.contains(id));
    }
}

proof fn lemma_filter_ascends(s: Seq<u64>, keep: spec_fn(u64) -> bool)
    requires
        sort::ascends(s),
    ensures
        sort::ascends(s.filter(keep)),
    decreases s.len(),
{
    reveal(Seq::filter);
    if s.len() > 0 {
        let t = s.drop_last();
        let f = t.filter(keep);
        lemma_filter_ascends(t, keep);
        if keep(s.last()) {
            assert forall|i: int, j: int| 0 <= i < j < f.push(s.last()).len() implies f.push(
                s.last(),
            )[i] < f.push(s.last())[j] by {
                if j == f.len() {
                    assert(f.contains(f[i]));
                    lemma_filter_within(t, keep, f[i]);
                    let k = choose|k: int| 0 <= k < t.len() && t[k] == f[i];
                    assert(s[k] < s[s.len() - 1]);
                }
            }
        }
    }
}

/// Whether one of these documents is live and its value of a field one that a column can
/// hold.
pub open spec fn some_candidate<C: Fn(&DataValue) -> bool>(
    candidate: C,
    reader: SegmentReader,
    deleted: Set<u64>,
    ids: Seq<u64>,
    field: Seq<char>,
) -> bool {
    exists|i: int|
        0 <= i < ids.len() && is_live(reader, deleted, #[trigger] ids[i]) && says_of(
            candidate,
            stored_at(reader, ids[i]),
            field,
            true,
        )
}

/// Whether every value of a field in those of these documents that are live is one that
/// no column can hold.
pub open spec fn no_candidate<C: Fn(&DataValue) -> bool>(
    candidate: C,
    reader: SegmentReader,
    deleted: Set<u64>,
    ids: Seq<u64>,
    field: Seq<char>,
) -> bool {
    forall|i: int|
        0 <= i < ids.len() && is_live(reader, deleted, #[trigger] ids[i]) ==> names::value_of(
            stored_at(reader, ids[i]),
            field,
        ) is None || says_of(candidate, stored_at(reader, ids[i]), field, false)
}

/// Whether the setting of a field is right after these documents were seen.
pub open spec fn column_settled<C: Fn(&DataValue) -> bool>(
    candidate: C,
    reader: SegmentReader,
    deleted: Set<u64>,
    ids: Seq<u64>,
    before: Seq<(Seq<char>, bool)>,
    after: Seq<(Seq<char>, bool)>,
    field: Seq<char>,
) -> bool {
    match names::value_of(before, field) {
        Some(b) => names::value_of(after, field) == Some(b),
        None => match names::value_of(after, field) {
            Some(b) => b == reader::has_column(reader, field) && some_candidate(
                candidate,
                reader,
                deleted,
                ids,
                field,
            ),
            None => no_candidate(candidate, reader, deleted, ids, field),
        },
    }
}

proof fn lemma_column_step<C: Fn(&DataValue) -> bool>(
    candidate: C,
    reader: SegmentReader,
    deleted: Set<u64>,
    ids: Seq<u64>,
    k: int,
    first: Seq<(Seq<char>, bool)>,
    before: Seq<(Seq<char>, bool)>,
    after: Seq<(Seq<char>, bool)>,
)
    requires
        0 <= k < ids.len(),
        forall|f: Seq<char>| #[trigger]
            column_settled(candidate, reader, deleted, ids.take(k), first, before, f),
        is_live(reader, deleted, ids[k]) ==> forall|f: Seq<char>| #[trigger]
            column_noted(candidate, reader, stored_at(reader, ids[k]), before, after, f),
        !is_live(reader, deleted, ids[k]) ==> after == before,
    ensures
        forall|f: Seq<char>| #[trigger]
            column_settled(candidate, reader, deleted, ids.take(k + 1), first, after, f),
{
    let done = ids.take(k);
    let more = ids.take(k + 1);
    assert forall|f: Seq<char>| #[trigger]
        column_settled(candidate, reader, deleted, more, first, after, f) by {
        assert(column_settled(candidate, reader, deleted, done, first, before, f));
        if is_live(reader, deleted, ids[k]) {
            assert(column_noted(candidate, reader, stored_at(reader, ids[k]), before, after, f));
        }
        assert(more[k] == ids[k]);
        assert(forall|i: int| 0 <= i < k ==> #[trigger] more[i] == done[i]);
        if some_candidate(candidate, reader, deleted, done, f) {
            let i = choose|i: int|
                0 <= i < done.len() && is_live(reader, deleted, #[trigger] done[i]) && says_of(
                    candidate,
                    stored_at(reader, done[i]),
                    f,
                    true,
                );
            assert(more[i] == done[i]);
            assert(some_candidate(candidate, reader, deleted, more, f));
        }
        if is_live(reader, deleted, ids[k]) && says_of(
            candidate,
            stored_at(reader, ids[k]),
            f,
            true,
        ) {
            assert(some_candidate(candidate, reader, deleted, more, f));
        }
    }
}

/// What the writer of a merged segment is handed: which fields keep positions and which
/// have a column, as far as that is settled, and the documents.
#[derive(Debug, PartialEq)]
pub struct MergeBuffer {
    pub term_positions: FieldMap<bool>,
    pub doc_values: FieldMap<bool>,
    pub documents: Vec<(u64, AnalyzedDocument)>,
}

impl MergeBuffer {
    /// The names of the settings ascend.
    pub open spec fn wf(&self) -> bool {
        self.term_positions.wf() && self.doc_values.wf()
    }
}

/// Puts a document together from its terms, its points, what is stored of it and the
/// lengths that were recorded.
fn carry(
    reader: &SegmentReader,
    id: u64,
    stored: Document,
    terms: &mut Grouped<AnalyzedTerm>,
    points: &mut Grouped<Vec<u64>>,
    recorded: &Vec<String>,
    skip: Option<&str>,
) -> (r: Result<AnalyzedDocument, LaurusError>)
    requires
        stored.wf(),
        grouping::grouped_wf(old(terms)@),
        grouping::grouped_wf(old(points)@),
    ensures
        grouping::grouped_wf(final(terms)@),
        grouping::grouped_wf(final(points)@),
        forall|i: u64, f: Seq<char>|
            i != id ==> #[trigger] grouping::items_at(final(terms)@, i, f) == grouping::items_at(
                old(terms)@,
                i,
                f,
            ),
        forall|i: u64, f: Seq<char>|
            i != id ==> #[trigger] grouping::items_at(final(points)@, i, f) == grouping::items_at(
                old(points)@,
                i,
                f,
            ),
        match r {
            Ok(a) => {
                &&& a.wf()
                &&& data::fields_view(a.stored_fields@) == stored@
                &&& forall|f: Seq<char>| #[trigger]
                    parser::terms_in(a, f) == nonempty(
                        analyzed::term_views(grouping::items_at(old(terms)@, id, f)),
                    )
                &&& forall|f: Seq<char>| #[trigger]
                    parser::points_in(a, f) == nonempty(
                        parser::point_views(grouping::items_at(old(points)@, id, f)),
                    )
                &&& forall|f: Seq<char>| #[trigger]
                    names::value_of(a.field_lengths@, f) == if skipped(skip) != Some(f) && (
                    parser::terms_in(a, f) is Some || is_named(recorded@, f)) {
                        length_at(*reader, id, f)
                    } else {
                        None
                    }
            },
            Err(e) => (reader.gone() is Err && reader.gone()->Err_0 == e) || (reader.measures() is Err
                && reader.measures()->Err_0 == e),
        },
{
    let ghost terms0 = terms@;
    let ghost points0 = points@;
    let field_terms: FieldMap<Vec<AnalyzedTerm>> = take_items(terms, id);
    let point_values: FieldMap<Vec<Vec<u64>>> = take_items(points, id);
    let asked: Vec<String> = names_with_lengths(&field_terms, recorded);
    let field_lengths: FieldMap<u32> = match lengths_of(reader, id, &asked, skip) {
        Ok(m) => m,
        Err(e) => return Err(e),
    };
    let a = AnalyzedDocument { field_terms, stored_fields: stored.fields, point_values, field_lengths };
    proof {
        assert forall|f: Seq<char>| #[trigger]
            parser::terms_in(a, f) == nonempty(
                analyzed::term_views(grouping::items_at(terms0, id, f)),
            ) by {
            assert(grouping::items_of(a.field_terms, f) == grouping::items_at(terms0, id, f));
            assert(match names::value_of(a.field_terms@, f) {
                Some(v) => v@.len() > 0,
                None => true,
            });
        }
        assert forall|f: Seq<char>| #[trigger]
            parser::points_in(a, f) == nonempty(
                parser::point_views(grouping::items_at(points0, id, f)),
            ) by {
            assert(grouping::items_of(a.point_values, f) == grouping::items_at(points0, id, f));
            assert(match names::value_of(a.point_values@, f) {
                Some(v) => v@.len() > 0,
                None => true,
            });
        }
        assert forall|f: Seq<char>| #[trigger]
            names::value_of(a.field_lengths@, f) == if skipped(skip) != Some(f) && (parser::terms_in(
                a,
                f,
            ) is Some || is_named(recorded@, f)) {
                length_at(*reader, id, f)
            } else {
                None
            } by {
            assert(is_named(asked@, f) <==> names::has_name(a.field_terms@, f) || is_named(
                recorded@,
                f,
            ));
        }
    }
    Ok(a)
}

/// Whether these are the documents of a segment, each carried over, in the order of
/// `ids`.
pub open spec fn are_replayed(
    reader: SegmentReader,
    outs: Seq<Option<Seq<PostingView>>>,
    ids: Seq<u64>,
    docs: Seq<(u64, AnalyzedDocument)>,
) -> bool {
    &&& docs.len() == ids.len()
    &&& forall|j: int|
        0 <= j < docs.len() ==> (#[trigger] docs[j]).0 == ids[j] && is_replayed(
            reader,
            outs,
            ids[j],
            docs[j].1,
        )
}

/// Whether a segment can be read as far as a merge needs it: its dictionary, its point
/// trees, its lengths and, of the documents that are not known to be deleted, whether
/// they are there.
pub open spec fn can_be_replayed(
    reader: SegmentReader,
    deleted: Set<u64>,
    skip: Option<Seq<char>>,
) -> bool {
    &&& reader.dictionary() is Ok
    &&& trees_walk(reader.trees(), skip, reader.trees().len() as int)
    &&& reader.measures() is Ok
    &&& reader.documents() is Ok
    &&& forall|id: u64| #[trigger]
        reader.documents()->Ok_0.contains_key(id) && !deleted.contains(id) ==> reader.gone() is Ok
}

/// Whether a segment cannot be replayed for this reason. The dictionary comes first, then
/// the postings of its names, the points, the lengths and the documents; last comes, if
/// there is a document that is not known to be deleted, which of them are.
pub open spec fn replay_fails<
    D: Fn(&SegmentInfo, u64, PostingFormat) -> Result<DecodedPostingList, LaurusError>,
    N: Fn(&str, &DataValue) -> Result<Vec<AnalyzedTerm>, LaurusError>,
>(
    decode: D,
    analyze: N,
    reader: SegmentReader,
    deleted: Set<u64>,
    skip: Option<Seq<char>>,
    e: LaurusError,
) -> bool {
    match reader.dictionary() {
        Err(d) => e == d,
        Ok(_) => {
            ||| listing_failed(decode, analyze, reader, skip, e)
            ||| can_be_listed(decode, analyze, reader, skip) && points_failed(
                reader.trees(),
                skip,
                e,
            )
            ||| can_be_listed(decode, analyze, reader, skip) && trees_walk(
                reader.trees(),
                skip,
                reader.trees().len() as int,
            ) && documents_fail(reader, deleted, e)
        },
    }
}

/// Whether the lengths or the documents of a segment cannot be had for this reason, or
/// not which of the documents are deleted.
pub open spec fn documents_fail(reader: SegmentReader, deleted: Set<u64>, e: LaurusError) -> bool {
    match reader.measures() {
        Err(m) => e == m,
        Ok(_) => match reader.documents() {
            Err(d) => e == d,
            Ok(docs) => reader.gone() is Err && reader.gone()->Err_0 == e && exists|id: u64|
                #[trigger] docs.contains_key(id) && !deleted.contains(id),
        },
    }
}

/// Whether the first document that is asked for and was emitted before is told of.
pub open spec fn tells_of_twice(
    reader: SegmentReader,
    deleted: Set<u64>,
    owned: Option<Set<u64>>,
    emitted: Set<u64>,
    e: LaurusError,
) -> bool {
    exists|id: u64|
        is_chosen(reader, deleted, owned)(id) && #[trigger] emitted.contains(id) && e == (
        LaurusError::EmittedTwice { doc_id: id }) && forall|j: u64|
            is_chosen(reader, deleted, owned)(j) && #[trigger] emitted.contains(j) ==> id <= j
}

/// What a replay of a segment leaves behind.
pub open spec fn replay_done<
    D: Fn(&SegmentInfo, u64, PostingFormat) -> Result<DecodedPostingList, LaurusError>,
    N: Fn(&str, &DataValue) -> Result<Vec<AnalyzedTerm>, LaurusError>,
    C: Fn(&DataValue) -> bool,
>(
    decode: D,
    analyze: N,
    candidate: C,
    reader: SegmentReader,
    deleted: Set<u64>,
    owned: Option<Set<u64>>,
    before: MergeBuffer,
    after: MergeBuffer,
    outs: Seq<Option<Seq<PostingView>>>,
) -> bool {
    let keys = reader_keys(reader);
    &&& outs.len() == keys.len()
    &&& are_listed(decode, analyze, reader, None, keys, outs)
    &&& after.term_positions@ == positions_pinned(
        before.term_positions@,
        keys,
        outs,
        keys.len() as int,
    )
    &&& forall|f: Seq<char>| #[trigger]
        column_settled(
            candidate,
            reader,
            deleted,
            stored_ids(reader),
            before.doc_values@,
            after.doc_values@,
            f,
        )
    &&& before.documents@.len() <= after.documents@.len()
    &&& after.documents@.take(before.documents@.len() as int) == before.documents@
    &&& are_replayed(
        reader,
        outs,
        chosen_ids(reader, deleted, owned),
        after.documents@.skip(before.documents@.len() as int),
    )
}

proof fn lemma_filter_step(ids: Seq<u64>, k: int, keep: spec_fn(u64) -> bool)
    requires
        0 <= k < ids.len(),
    ensures
        ids.take(k + 1).filter(keep) == if keep(ids[k]) {
            ids.take(k).filter(keep).push(ids[k])
        } else {
            ids.take(k).filter(keep)
        },
{
    reveal(Seq::filter);
    let more = ids.take(k + 1);
    assert(more.drop_last() =~= ids.take(k));
    assert(more.last() == ids[k]);
}

/// What passes a test are the elements of which it holds.
pub proof fn lemma_filter_within(s: Seq<u64>, keep: spec_fn(u64) -> bool, x: u64)
    ensures
        s.filter(keep).contains(x) <==> s.contains(x) && keep(x),
    decreases s.len(),
{
    reveal(Seq::filter);
    if s.len() > 0 {
        let t = s.drop_last();
        lemma_filter_within(t, keep, x);
        assert(s =~= t.push(s.last()));
        lemma_push_set(t, s.last());
        lemma_push_set(t.filter(keep), s.last());
        assert(s.to_set().contains(x) == t.to_set().insert(s.last()).contains(x));
        assert(t.filter(keep).push(s.last()).to_set().contains(x) == t.filter(keep).to_set().insert(
            s.last(),
        ).contains(x));
    }
}

proof fn lemma_push_set(s: Seq<u64>, id: u64)
    ensures
        s.push(id).to_set() == s.to_set().insert(id),
{
    let t = s.push(id);
    assert forall|x: u64| #[trigger] t.to_set().contains(x) <==> s.to_set().insert(id).contains(x) by {
        if t.contains(x) {
            let i = choose|i: int| 0 <= i < t.len() && t[i] == x;
            if i < s.len() {
                assert(s[i] == x);
            }
        }
        if s.contains(x) {
            let i = choose|i: int| 0 <= i < s.len() && s[i] == x;
            assert(t[i] == x);
        }
        assert(t[s.len() as int] == id);
    }
    assert(t.to_set() =~= s.to_set().insert(id));
}

proof fn lemma_filter_not_ahead(ids: Seq<u64>, k: int, keep: spec_fn(u64) -> bool)
    requires
        sort::ascends(ids),
        0 <= k < ids.len(),
    ensures
        !ids.take(k).filter(keep).contains(ids[k]),
{
    let done = ids.take(k);
    if done.filter(keep).contains(ids[k]) {
        lemma_filter_within(done, keep, ids[k]);
        let j = choose|j: int| 0 <= j < done.len() && done[j] == ids[k];
        assert(ids[j] == ids[k]);
    }
}

proof fn lemma_is_replayed(
    reader: SegmentReader,
    deleted: Set<u64>,
    owned: Option<Set<u64>>,
    outs: Seq<Option<Seq<PostingView>>>,
    id: u64,
    a: AnalyzedDocument,
    terms: Map<u64, FieldMap<Vec<AnalyzedTerm>>>,
    points: Map<u64, FieldMap<Vec<Vec<u64>>>>,
    skip: Option<Seq<char>>,
    f: Seq<char>,
)
    requires
        has_points(owned, deleted, id),
        terms_collected(
            terms,
            reader_keys(reader),
            outs,
            reader_keys(reader).len() as int,
            owned,
        ),
        points_collected(
            points,
            reader.trees(),
            skip,
            reader.trees().len() as int,
            owned,
            deleted,
        ),
        parser::terms_in(a, f) == nonempty(
            analyzed::term_views(grouping::items_at(terms, id, f)),
        ),
        parser::points_in(a, f) == nonempty(
            parser::point_views(grouping::items_at(points, id, f)),
        ),
        names::value_of(a.field_lengths@, f) == if parser::terms_in(a, f) is Some || is_recorded(
            reader,
            f,
        ) {
            length_at(reader, id, f)
        } else {
            None
        },
    ensures
        is_carried(reader, skip, outs, id, a, f),
{
}

/// Hands the live documents of a segment that are asked for over to the writer of a
/// merged segment, without analyzing any text again, and settles which fields keep
/// positions and have a column.
#[verifier::rlimit(60)]
pub fn replay_segment_into_writer<
    D: Fn(&SegmentInfo, u64, PostingFormat) -> Result<DecodedPostingList, LaurusError>,
    N: Fn(&str, &DataValue) -> Result<Vec<AnalyzedTerm>, LaurusError>,
    C: Fn(&DataValue) -> bool,
>(
    reader: &SegmentReader,
    deleted: &RoaringTreemap,
    owned: Option<&RoaringTreemap>,
    emitted: &mut RoaringTreemap,
    buffer: &mut MergeBuffer,
    decode: &D,
    analyze: &N,
    candidate: &C,
) -> (r: Result<(), LaurusError>)
    requires
        reader.wf(),
        old(buffer).wf(),
        forall|s: &SegmentInfo, o: u64, f: PostingFormat| call_requires(*decode, (s, o, f)),
        segment_reader::decodes_well(*decode),
        forall|f: &str, v: &DataValue| call_requires(*analyze, (f, v)),
        forall|v: &DataValue| call_requires(*candidate, (v,)),
    ensures
        final(buffer).wf(),
        match r {
            Ok(_) => {
                let gone = treemap::treemap_ids(*deleted);
                let ids = chosen_ids(*reader, gone, owned_ids(owned));
                &&& can_be_replayed(*reader, gone, None)
                &&& exists|outs: Seq<Option<Seq<PostingView>>>| #[trigger]
                    replay_done(
                        *decode,
                        *analyze,
                        *candidate,
                        *reader,
                        gone,
                        owned_ids(owned),
                        *old(buffer),
                        *final(buffer),
                        outs,
                    )
                &&& forall|j: int|
                    0 <= j < ids.len() ==> !treemap::treemap_ids(*old(emitted)).contains(
                        #[trigger] ids[j],
                    )
                &&& treemap::treemap_ids(*final(emitted)) == treemap::treemap_ids(
                    *old(emitted),
                ).union(ids.to_set())
            },
            Err(e) => {
                let gone = treemap::treemap_ids(*deleted);
                ||| replay_fails(*decode, *analyze, *reader, gone, None, e)
                ||| can_be_listed(*decode, *analyze, *reader, None) && can_be_replayed(
                    *reader,
                    gone,
                    None,
                ) && tells_of_twice(
                    *reader,
                    gone,
                    owned_ids(owned),
                    treemap::treemap_ids(*old(emitted)),
                    e,
                )
            },
        },
{
    let ghost gone = treemap::treemap_ids(*deleted);
    let ghost own = owned_ids(owned);
    let ghost keep = is_chosen(*reader, gone, own);
    let ghost first = *buffer;
    let ghost sent = treemap::treemap_ids(*emitted);
    let (collected, Ghost(outs)) = match collect_terms(
        reader,
        None,
        owned,
        &mut buffer.term_positions,
        decode,
        analyze,
    ) {
        Ok(c) => c,
        Err(e) => return Err(e),
    };
    assert(are_listed(*decode, *analyze, *reader, None, reader_keys(*reader), outs));
    let mut terms: Grouped<AnalyzedTerm> = collected;
    let mut points: Grouped<Vec<u64>> = match collect_points(reader, None, owned, Some(deleted)) {
        Ok(m) => m,
        Err(e) => return Err(e),
    };
    let recorded: Vec<String> = match reader.norms_field_names() {
        Ok(v) => v,
        Err(e) => return Err(e),
    };
    let ids: Vec<u64> = match reader.doc_ids() {
        Ok(v) => v,
        Err(e) => return Err(e),
    };
    let ghost terms0 = terms@;
    let ghost points0 = points@;
    let ghost columns0 = first.doc_values@;
    let n: usize = ids.len();
    let mut k: usize = 0;
    proof {
        lemma_recorded(*reader, recorded@);
        sort::lemma_in_order(ids@);
        reveal(Seq::filter);
        assert(ids@.take(0).filter(keep) =~= Seq::empty());
        assert(sent.union(Seq::<u64>::empty().to_set()) =~= sent);
        assert(buffer.documents@.take(first.documents@.len() as int) =~= first.documents@);
        assert(buffer.documents@.skip(first.documents@.len() as int) =~= Seq::empty());
    }
    while k < n
        invariant
            reader.wf(),
            reader.dictionary() is Ok,
            reader.documents() is Ok,
            reader.measures() is Ok,
            can_be_listed(*decode, *analyze, *reader, None),
            trees_walk(reader.trees(), None, reader.trees().len() as int),
            forall|v: &DataValue| call_requires(*candidate, (v,)),
            gone == treemap::treemap_ids(*deleted),
            own == owned_ids(owned),
            keep == is_chosen(*reader, gone, own),
            n == ids@.len(),
            k <= n,
            sort::ascends(ids@),
            ids@.to_set() == reader.documents()->Ok_0.dom(),
            forall|f: Seq<char>| #[trigger] is_named(recorded@, f) <==> is_recorded(*reader, f),
            terms_collected(
                terms0,
                reader_keys(*reader),
                outs,
                reader_keys(*reader).len() as int,
                own,
            ),
            points_collected(
                points0,
                reader.trees(),
                None,
                reader.trees().len() as int,
                own,
                gone,
            ),
            grouping::grouped_wf(terms@),
            grouping::grouped_wf(points@),
            forall|i: int, f: Seq<char>|
                k <= i < n ==> #[trigger] grouping::items_at(terms@, ids@[i], f)
                    == grouping::items_at(terms0, ids@[i], f),
            forall|i: int, f: Seq<char>|
                k <= i < n ==> #[trigger] grouping::items_at(points@, ids@[i], f)
                    == grouping::items_at(points0, ids@[i], f),
            buffer.wf(),
            buffer.term_positions@ == positions_pinned(
                first.term_positions@,
                reader_keys(*reader),
                outs,
                reader_keys(*reader).len() as int,
            ),
            forall|f: Seq<char>| #[trigger]
                column_settled(
                    *candidate,
                    *reader,
                    gone,
                    ids@.take(k as int),
                    columns0,
                    buffer.doc_values@,
                    f,
                ),
            first.documents@.len() <= buffer.documents@.len(),
            buffer.documents@.take(first.documents@.len() as int) == first.documents@,
            are_replayed(
                *reader,
                outs,
                ids@.take(k as int).filter(keep),
                buffer.documents@.skip(first.documents@.len() as int),
            ),
            forall|j: int|
                0 <= j < ids@.take(k as int).filter(keep).len() ==> !sent.contains(
                    #[trigger] ids@.take(k as int).filter(keep)[j],
                ),
            treemap::treemap_ids(*emitted) == sent.union(
                ids@.take(k as int).filter(keep).to_set(),
            ),
            sent == treemap::treemap_ids(*old(emitted)),
            forall|i: int|
                0 <= i < k && !gone.contains(#[trigger] ids@[i]) ==> reader.gone() is Ok,
        decreases n - k,
    {
        let id: u64 = ids[k];
        let ghost columns = buffer.doc_values@;
        proof {
            assert(ids@.to_set().contains(id));
            lemma_filter_step(ids@, k as int, keep);
            lemma_filter_not_ahead(ids@, k as int, keep);
        }
        let ghost done = ids@.take(k as int).filter(keep);
        if treemap::treemap_contains(deleted, id) {
            proof {
                lemma_column_step(
                    *candidate,
                    *reader,
                    gone,
                    ids@,
                    k as int,
                    columns0,
                    columns,
                    buffer.doc_values@,
                );
            }
            k = k + 1;
            continue;
        }
        let stored: Document = match reader.document(id) {
            Err(e) => return Err(e),
            Ok(None) => {
                proof {
                    lemma_column_step(
                        *candidate,
                        *reader,
                        gone,
                        ids@,
                        k as int,
                        columns0,
                        columns,
                        buffer.doc_values@,
                    );
                }
                k = k + 1;
                continue;
            },
            Ok(Some(d)) => d,
        };
        note_columns(reader, &stored, &mut buffer.doc_values, candidate);
        proof {
            lemma_column_step(
                *candidate,
                *reader,
                gone,
                ids@,
                k as int,
                columns0,
                columns,
                buffer.doc_values@,
            );
        }
        if !keeps(owned, id) {
            k = k + 1;
            continue;
        }
        let a: AnalyzedDocument = match carry(
            reader,
            id,
            stored,
            &mut terms,
            &mut points,
            &recorded,
            None,
        ) {
            Ok(a) => a,
            Err(e) => return Err(e),
        };
        proof {
            assert(is_replayed(*reader, outs, id, a)) by {
                assert forall|f: Seq<char>| #[trigger] is_carried(*reader, None, outs, id, a, f) by {
                    assert(parser::terms_in(a, f) == nonempty(
                        analyzed::term_views(grouping::items_at(terms0, id, f)),
                    ));
                    assert(parser::points_in(a, f) == nonempty(
                        parser::point_views(grouping::items_at(points0, id, f)),
                    ));
                    assert(is_named(recorded@, f) <==> is_recorded(*reader, f));
                    assert(names::value_of(a.field_lengths@, f) == if parser::terms_in(a, f) is Some
                        || is_recorded(*reader, f) {
                        length_at(*reader, id, f)
                    } else {
                        None
                    });
                    lemma_is_replayed(*reader, gone, own, outs, id, a, terms0, points0, None, f);
                }
            }
        }
        let fresh: bool = treemap::treemap_insert(emitted, id);
        if !fresh {
            proof {
                assert(!done.to_set().contains(id));
                assert(sent.contains(id));
                assert(keep(id));
                assert forall|j: u64| keep(j) && #[trigger] sent.contains(j) implies id <= j by {
                    if j < id {
                        lemma_kept_before(ids@, k as int, keep, j);
                    }
                }
                assert(tells_of_twice(
                    *reader,
                    gone,
                    own,
                    sent,
                    LaurusError::EmittedTwice { doc_id: id },
                ));
            }
            return Err(LaurusError::EmittedTwice { doc_id: id });
        }
        let ghost before = buffer.documents@;
        buffer.documents.push((id, a));
        proof {
            let m = first.documents@.len() as int;
            assert(buffer.documents@.take(m) =~= before.take(m));
            assert(buffer.documents@.skip(m) =~= before.skip(m).push((id, a)));
            lemma_push_set(done, id);
            assert(sent.union(done.push(id).to_set()) =~= sent.union(done.to_set()).insert(id));
            assert forall|i: int, f: Seq<char>| k + 1 <= i < n implies #[trigger] grouping::items_at(
                terms@,
                ids@[i],
                f,
            ) == grouping::items_at(terms0, ids@[i], f) by {
                assert(ids@[k as int] < ids@[i]);
            }
            assert forall|i: int, f: Seq<char>| k + 1 <= i < n implies #[trigger] grouping::items_at(
                points@,
                ids@[i],
                f,
            ) == grouping::items_at(points0, ids@[i], f) by {
                assert(ids@[k as int] < ids@[i]);
            }
        }
        k = k + 1;
    }
    proof {
        assert(ids@.take(n as int) =~= ids@);
        assert(ids@ == stored_ids(*reader));
        assert(replay_done(*decode, *analyze, *candidate, *reader, gone, own, first, *buffer, outs));
        assert forall|id: u64| #[trigger]
            reader.documents()->Ok_0.contains_key(id) && !gone.contains(id) implies reader.gone() is Ok by {
            assert(ids@.to_set().contains(id));
            let i = choose|i: int| 0 <= i < ids@.len() && ids@[i] == id;
            assert(!gone.contains(ids@[i]));
        }
    }
    Ok(())
}

/// What is kept and lies below an id is among what is kept before it.
proof fn lemma_kept_before(ids: Seq<u64>, k: int, keep: spec_fn(u64) -> bool, j: u64)
    requires
        0 <= k < ids.len(),
        sort::ascends(ids),
        ids.contains(j),
        j < ids[k],
        keep(j),
    ensures
        ids.take(k).filter(keep).contains(j),
{
    let i = choose|i: int| 0 <= i < ids.len() && ids[i] == j;
    if i > k {
        assert(ids[k] < ids[i]);
    }
    assert(ids.take(k)[i] == j);
    ids.take(k).lemma_filter_contains(keep, i);
}

proof fn lemma_recorded(reader: SegmentReader, recorded: Seq<String>)
    requires
        reader.measures() is Ok,
        recorded.len() == reader.measures()->Ok_0.all_stats().len(),
        forall|i: int|
            0 <= i < recorded.len() ==> #[trigger] recorded[i]@
                == reader.measures()->Ok_0.all_stats()[i].0,
    ensures
        forall|f: Seq<char>| #[trigger] is_named(recorded, f) <==> is_recorded(reader, f),
{
    let stats = reader.measures()->Ok_0.all_stats();
    assert forall|f: Seq<char>| #[trigger] is_named(recorded, f) <==> is_recorded(reader, f) by {
        if is_named(recorded, f) {
            let i = choose|i: int| 0 <= i < recorded.len() && #[trigger] recorded[i]@ == f;
            assert(stats[i].0 == f);
        }
        if is_recorded(reader, f) {
            let i = choose|i: int| 0 <= i < stats.len() && #[trigger] stats[i].0 == f;
            assert(recorded[i]@ == f);
        }
    }
}

// ---------------------------------------------------------------------------
// Replaying a segment with one field analyzed anew
// ---------------------------------------------------------------------------

/// Whether `rederive` may give these terms and points for the value of a field.
pub open spec fn derives<
    R: Fn(&str, &DataValue) -> Result<(Vec<AnalyzedTerm>, Vec<Vec<u64>>), LaurusError>,
>(
    rederive: R,
    field: Seq<char>,
    value: DataView,
    terms: Seq<TermView>,
    points: Seq<Seq<u64>>,
) -> bool {
    exists|
        f: &str,
        v: &DataValue,
        out: Result<(Vec<AnalyzedTerm>, Vec<Vec<u64>>), LaurusError>,
    | #[trigger]
        call_ensures(rederive, (f, v), out) && f@ == field && v@ == value && out is Ok
            && analyzed::term_views(out->Ok_0.0@) == terms && parser::point_views(out->Ok_0.1@)
            == points
}

/// Whether `rederive` may fail on the value of a field for this reason.
pub open spec fn derive_fails<
    R: Fn(&str, &DataValue) -> Result<(Vec<AnalyzedTerm>, Vec<Vec<u64>>), LaurusError>,
>(rederive: R, field: Seq<char>, value: DataView, e: LaurusError) -> bool {
    exists|
        f: &str,
        v: &DataValue,
        out: Result<(Vec<AnalyzedTerm>, Vec<Vec<u64>>), LaurusError>,
    | #[trigger]
        call_ensures(rederive, (f, v), out) && f@ == field && v@ == value && out is Err
            && out->Err_0 == e
}

/// Whether a field of a document holds these terms and points and their number as its
/// length. The length is kept where there are terms or lengths of the field were
/// recorded.
pub open spec fn holds_anew(
    reader: SegmentReader,
    a: AnalyzedDocument,
    field: Seq<char>,
    terms: Seq<TermView>,
    points: Seq<Seq<u64>>,
) -> bool {
    &&& parser::terms_in(a, field) == nonempty(terms)
    &&& parser::points_in(a, field) == nonempty(points)
    &&& names::value_of(a.field_lengths@, field) == if terms.len() > 0 || is_recorded(reader, field) {
        Some(terms.len() as u32)
    } else {
        None
    }
}

/// Whether a field of a document was analyzed anew from what is stored of it: without
/// `rederive` or without the field there is nothing of it.
pub open spec fn is_rederived<
    R: Fn(&str, &DataValue) -> Result<(Vec<AnalyzedTerm>, Vec<Vec<u64>>), LaurusError>,
>(
    rederive: Option<&R>,
    reader: SegmentReader,
    id: u64,
    a: AnalyzedDocument,
    field: Seq<char>,
) -> bool {
    match (rederive, names::value_of(stored_at(reader, id), field)) {
        (Some(derive), Some(value)) => exists|terms: Seq<TermView>, points: Seq<Seq<u64>>| #[trigger]
            derives(*derive, field, value, terms, points) && holds_anew(
                reader,
                a,
                field,
                terms,
                points,
            ),
        _ => parser::terms_in(a, field) is None && parser::points_in(a, field) is None
            && names::value_of(a.field_lengths@, field) is None,
    }
}

/// Whether a document was carried over with one field analyzed anew.
pub open spec fn is_rebuilt<
    R: Fn(&str, &DataValue) -> Result<(Vec<AnalyzedTerm>, Vec<Vec<u64>>), LaurusError>,
>(
    rederive: Option<&R>,
    reader: SegmentReader,
    outs: Seq<Option<Seq<PostingView>>>,
    field: Seq<char>,
    id: u64,
    a: AnalyzedDocument,
) -> bool {
    &&& a.wf()
    &&& data::fields_view(a.stored_fields@) == stored_at(reader, id)
    &&& forall|f: Seq<char>|
        f != field ==> #[trigger] is_carried(reader, Some(field), outs, id, a, f)
    &&& is_rederived(rederive, reader, id, a, field)
}

/// Whether these are the documents of a segment, each with one field analyzed anew, in
/// the order of `ids`.
pub open spec fn are_rebuilt<
    R: Fn(&str, &DataValue) -> Result<(Vec<AnalyzedTerm>, Vec<Vec<u64>>), LaurusError>,
>(
    rederive: Option<&R>,
    reader: SegmentReader,
    outs: Seq<Option<Seq<PostingView>>>,
    field: Seq<char>,
    ids: Seq<u64>,
    docs: Seq<(u64, AnalyzedDocument)>,
) -> bool {
    &&& docs.len() == ids.len()
    &&& forall|j: int|
        0 <= j < docs.len() ==> (#[trigger] docs[j]).0 == ids[j] && is_rebuilt(
            rederive,
            reader,
            outs,
            field,
            ids[j],
            docs[j].1,
        )
}

/// What the rebuilding of a segment leaves behind: which fields keep positions, which
/// have a column, and the documents.
pub open spec fn rebuild_done<
    D: Fn(&SegmentInfo, u64, PostingFormat) -> Result<DecodedPostingList, LaurusError>,
    N: Fn(&str, &DataValue) -> Result<Vec<AnalyzedTerm>, LaurusError>,
    C: Fn(&DataValue) -> bool,
    R: Fn(&str, &DataValue) -> Result<(Vec<AnalyzedTerm>, Vec<Vec<u64>>), LaurusError>,
>(
    decode: D,
    analyze: N,
    candidate: C,
    rederive: Option<&R>,
    reader: SegmentReader,
    deleted: Set<u64>,
    field: Seq<char>,
    positions0: Seq<(Seq<char>, bool)>,
    positions: Seq<(Seq<char>, bool)>,
    columns0: Seq<(Seq<char>, bool)>,
    columns: Seq<(Seq<char>, bool)>,
    docs: Seq<(u64, AnalyzedDocument)>,
    outs: Seq<Option<Seq<PostingView>>>,
) -> bool {
    let keys = reader_keys(reader);
    &&& outs.len() == keys.len()
    &&& are_listed(decode, analyze, reader, Some(field), keys, outs)
    &&& positions == positions_pinned(positions0, keys, outs, keys.len() as int)
    &&& forall|f: Seq<char>| #[trigger]
        column_settled(candidate, reader, deleted, stored_ids(reader), columns0, columns, f)
    &&& are_rebuilt(rederive, reader, outs, field, chosen_ids(reader, deleted, None), docs)
}

/// Whether a segment can be rebuilt and this is what its rebuilding leaves behind.
pub open spec fn is_rebuilding<
    D: Fn(&SegmentInfo, u64, PostingFormat) -> Result<DecodedPostingList, LaurusError>,
    N: Fn(&str, &DataValue) -> Result<Vec<AnalyzedTerm>, LaurusError>,
    C: Fn(&DataValue) -> bool,
    R: Fn(&str, &DataValue) -> Result<(Vec<AnalyzedTerm>, Vec<Vec<u64>>), LaurusError>,
>(
    decode: D,
    analyze: N,
    candidate: C,
    rederive: Option<&R>,
    reader: SegmentReader,
    deleted: Set<u64>,
    field: Seq<char>,
    positions0: Seq<(Seq<char>, bool)>,
    positions: Seq<(Seq<char>, bool)>,
    columns0: Seq<(Seq<char>, bool)>,
    columns: Seq<(Seq<char>, bool)>,
    docs: Seq<(u64, AnalyzedDocument)>,
) -> bool {
    &&& can_be_replayed(reader, deleted, Some(field))
    &&& exists|outs: Seq<Option<Seq<PostingView>>>| #[trigger]
        rebuild_done(
            decode,
            analyze,
            candidate,
            rederive,
            reader,
            deleted,
            field,
            positions0,
            positions,
            columns0,
            columns,
            docs,
            outs,
        )
}

/// Whether the analysis of a field of a document can be had, where the field is there.
pub open spec fn can_be_derived<
    R: Fn(&str, &DataValue) -> Result<(Vec<AnalyzedTerm>, Vec<Vec<u64>>), LaurusError>,
>(rederive: R, reader: SegmentReader, id: u64, field: Seq<char>) -> bool {
    match names::value_of(stored_at(reader, id), field) {
        None => true,
        Some(value) => exists|terms: Seq<TermView>, points: Seq<Seq<u64>>| #[trigger]
            derives(rederive, field, value, terms, points),
    }
}

/// Whether the analysis of a field of some live document fails for this reason, while
/// those of the live documents before it can be had.
pub open spec fn rederiving_failed<
    R: Fn(&str, &DataValue) -> Result<(Vec<AnalyzedTerm>, Vec<Vec<u64>>), LaurusError>,
>(
    rederive: Option<&R>,
    reader: SegmentReader,
    deleted: Set<u64>,
    field: Seq<char>,
    e: LaurusError,
) -> bool {
    match rederive {
        None => false,
        Some(derive) => exists|id: u64| #[trigger]
            is_live(reader, deleted, id) && names::value_of(stored_at(reader, id), field) is Some
                && derive_fails(
                *derive,
                field,
                names::value_of(stored_at(reader, id), field)->Some_0,
                e,
            ) && forall|j: u64|
                j < id && #[trigger] is_live(reader, deleted, j) ==> can_be_derived(
                    *derive,
                    reader,
                    j,
                    field,
                ),
    }
}

/// Whether a segment can be put together with a field analyzed anew.
pub open spec fn can_be_overridden<
    D: Fn(&SegmentInfo, u64, PostingFormat) -> Result<DecodedPostingList, LaurusError>,
    N: Fn(&str, &DataValue) -> Result<Vec<AnalyzedTerm>, LaurusError>,
    R: Fn(&str, &DataValue) -> Result<(Vec<AnalyzedTerm>, Vec<Vec<u64>>), LaurusError>,
>(
    decode: D,
    analyze: N,
    rederive: Option<&R>,
    reader: SegmentReader,
    deleted: Set<u64>,
    field: Seq<char>,
) -> bool {
    &&& can_be_listed(decode, analyze, reader, Some(field))
    &&& can_be_replayed(reader, deleted, Some(field))
    &&& rederive is Some ==> forall|id: u64| #[trigger]
        is_live(reader, deleted, id) ==> can_be_derived(*rederive->Some_0, reader, id, field)
}

/// Whether a segment cannot be put together with a field analyzed anew for this reason:
/// it cannot be replayed, or else the analysis fails.
pub open spec fn override_fails<
    D: Fn(&SegmentInfo, u64, PostingFormat) -> Result<DecodedPostingList, LaurusError>,
    N: Fn(&str, &DataValue) -> Result<Vec<AnalyzedTerm>, LaurusError>,
    R: Fn(&str, &DataValue) -> Result<(Vec<AnalyzedTerm>, Vec<Vec<u64>>), LaurusError>,
>(
    decode: D,
    analyze: N,
    rederive: Option<&R>,
    reader: SegmentReader,
    deleted: Set<u64>,
    field: Seq<char>,
    e: LaurusError,
) -> bool {
    ||| replay_fails(decode, analyze, reader, deleted, Some(field), e)
    ||| can_be_listed(decode, analyze, reader, Some(field)) && can_be_replayed(
        reader,
        deleted,
        Some(field),
    ) && rederiving_failed(rederive, reader, deleted, field, e)
}

/// Puts into a document what the analysis of a field gave.
fn put_anew(
    reader: &SegmentReader,
    a: AnalyzedDocument,
    field: &str,
    terms: Vec<AnalyzedTerm>,
    points: Vec<Vec<u64>>,
    recorded: &Vec<String>,
) -> (r: AnalyzedDocument)
    requires
        a.wf(),
        parser::terms_in(a, field@) is None,
        parser::points_in(a, field@) is None,
        names::value_of(a.field_lengths@, field@) is None,
        forall|f: Seq<char>| #[trigger] is_named(recorded@, f) <==> is_recorded(*reader, f),
    ensures
        r.wf(),
        r.stored_fields == a.stored_fields,
        forall|f: Seq<char>|
            f != field@ ==> #[trigger] parser::terms_in(r, f) == parser::terms_in(a, f),
        forall|f: Seq<char>|
            f != field@ ==> #[trigger] parser::points_in(r, f) == parser::points_in(a, f),
        forall|f: Seq<char>|
            f != field@ ==> #[trigger] names::value_of(r.field_lengths@, f) == names::value_of(
                a.field_lengths@,
                f,
            ),
        holds_anew(
            *reader,
            r,
            field@,
            analyzed::term_views(terms@),
            parser::point_views(points@),
        ),
{
    let ghost first = a;
    let mut field_terms: FieldMap<Vec<AnalyzedTerm>> = a.field_terms;
    let mut point_values: FieldMap<Vec<Vec<u64>>> = a.point_values;
    let mut field_lengths: FieldMap<u32> = a.field_lengths;
    let count: usize = terms.len();
    proof {
        names::lemma_with_value(field_terms@, field@, terms);
        names::lemma_with_value(point_values@, field@, points);
        names::lemma_with_value(field_lengths@, field@, count as u32);
    }
    let known: bool = count > 0 || contains_name(recorded, field);
    if count > 0 {
        field_terms.insert(field.to_string(), terms);
    }
    if points.len() > 0 {
        point_values.insert(field.to_string(), points);
    }
    if known {
        field_lengths.insert(field.to_string(), count as u32);
    }
    let r = AnalyzedDocument {
        field_terms,
        stored_fields: a.stored_fields,
        point_values,
        field_lengths,
    };
    proof {
        assert forall|f: Seq<char>| f != field@ implies #[trigger] parser::terms_in(r, f)
            == parser::terms_in(first, f) by {
            assert(names::value_of(r.field_terms@, f) == names::value_of(first.field_terms@, f));
        }
        assert forall|f: Seq<char>| f != field@ implies #[trigger] parser::points_in(r, f)
            == parser::points_in(first, f) by {
            assert(names::value_of(r.point_values@, f) == names::value_of(first.point_values@, f));
        }
    }
    r
}

/// Whether a name is in a list.
pub fn contains_name(list: &Vec<String>, name: &str) -> (r: bool)
    ensures
        r == is_named(list@, name@),
{
    let n: usize = list.len();
    let mut i: usize = 0;
    while i < n
        invariant
            n == list@.len(),
            i <= n,
            forall|j: int| 0 <= j < i ==> #[trigger] list@[j]@ != name@,
        decreases n - i,
    {
        if names::same_name(list[i].as_str(), name) {
            assert(list@[i as int]@ == name@);
            return true;
        }
        i = i + 1;
    }
    false
}

/// Puts the live documents of a segment together with one field analyzed anew from what
/// is stored of it, and settles which fields keep positions and have a column. Without
/// `rederive` there is nothing of the field.
#[verifier::rlimit(80)]
pub fn reconstruct_segment_with_field_override<
    D: Fn(&SegmentInfo, u64, PostingFormat) -> Result<DecodedPostingList, LaurusError>,
    N: Fn(&str, &DataValue) -> Result<Vec<AnalyzedTerm>, LaurusError>,
    C: Fn(&DataValue) -> bool,
    R: Fn(&str, &DataValue) -> Result<(Vec<AnalyzedTerm>, Vec<Vec<u64>>), LaurusError>,
>(
    reader: &SegmentReader,
    deleted: &RoaringTreemap,
    positions_by_field: &mut FieldMap<bool>,
    doc_values_by_field: &mut FieldMap<bool>,
    target_field: &str,
    rederive: Option<&R>,
    decode: &D,
    analyze: &N,
    candidate: &C,
) -> (r: Result<Vec<(u64, AnalyzedDocument)>, LaurusError>)
    requires
        reader.wf(),
        old(positions_by_field).wf(),
        old(doc_values_by_field).wf(),
        forall|s: &SegmentInfo, o: u64, f: PostingFormat| call_requires(*decode, (s, o, f)),
        segment_reader::decodes_well(*decode),
        forall|f: &str, v: &DataValue| call_requires(*analyze, (f, v)),
        forall|v: &DataValue| call_requires(*candidate, (v,)),
        rederive is Some ==> forall|f: &str, v: &DataValue|
            call_requires(*rederive->Some_0, (f, v)),
    ensures
        final(positions_by_field).wf(),
        final(doc_values_by_field).wf(),
        match r {
            Ok(docs) => can_be_overridden(
                *decode,
                *analyze,
                rederive,
                *reader,
                treemap::treemap_ids(*deleted),
                target_field@,
            ) && is_rebuilding(
                *decode,
                *analyze,
                *candidate,
                rederive,
                *reader,
                treemap::treemap_ids(*deleted),
                target_field@,
                old(positions_by_field)@,
                final(positions_by_field)@,
                old(doc_values_by_field)@,
                final(doc_values_by_field)@,
                docs@,
            ),
            Err(e) => override_fails(
                *decode,
                *analyze,
                rederive,
                *reader,
                treemap::treemap_ids(*deleted),
                target_field@,
                e,
            ),
        },
{
    let ghost gone = treemap::treemap_ids(*deleted);
    let ghost target = target_field@;
    let ghost keep = is_chosen(*reader, gone, None);
    let ghost positions0 = positions_by_field@;
    let ghost columns0 = doc_values_by_field@;
    let (collected, Ghost(outs)) = match collect_terms(
        reader,
        Some(target_field),
        None,
        positions_by_field,
        decode,
        analyze,
    ) {
        Ok(c) => c,
        Err(e) => return Err(e),
    };
    assert(are_listed(*decode, *analyze, *reader, Some(target), reader_keys(*reader), outs));
    let mut terms: Grouped<AnalyzedTerm> = collected;
    let mut points: Grouped<Vec<u64>> = match collect_points(
        reader,
        Some(target_field),
        None,
        Some(deleted),
    ) {
        Ok(m) => m,
        Err(e) => return Err(e),
    };
    let recorded: Vec<String> = match reader.norms_field_names() {
        Ok(v) => v,
        Err(e) => return Err(e),
    };
    let ids: Vec<u64> = match reader.doc_ids() {
        Ok(v) => v,
        Err(e) => return Err(e),
    };
    let ghost terms0 = terms@;
    let ghost points0 = points@;
    let ghost keys = reader_keys(*reader);
    let ghost trees = reader.trees();
    let n: usize = ids.len();
    let mut out: Vec<(u64, AnalyzedDocument)> = Vec::new();
    let mut k: usize = 0;
    proof {
        lemma_recorded(*reader, recorded@);
        sort::lemma_in_order(ids@);
        reveal(Seq::filter);
        assert(ids@.take(0).filter(keep) =~= Seq::empty());
        lemma_field_terms_left_out(*decode, *analyze, *reader, target, keys, outs);
    }
    while k < n
        invariant
            reader.wf(),
            reader.dictionary() is Ok,
            reader.documents() is Ok,
            reader.measures() is Ok,
            can_be_listed(*decode, *analyze, *reader, Some(target)),
            trees_walk(reader.trees(), Some(target), reader.trees().len() as int),
            forall|v: &DataValue| call_requires(*candidate, (v,)),
            rederive is Some ==> forall|f: &str, v: &DataValue|
                call_requires(*rederive->Some_0, (f, v)),
            gone == treemap::treemap_ids(*deleted),
            target == target_field@,
            keep == is_chosen(*reader, gone, None),
            keys == reader_keys(*reader),
            trees == reader.trees(),
            n == ids@.len(),
            k <= n,
            sort::ascends(ids@),
            ids@.to_set() == reader.documents()->Ok_0.dom(),
            forall|f: Seq<char>| #[trigger] is_named(recorded@, f) <==> is_recorded(*reader, f),
            terms_collected(terms0, keys, outs, keys.len() as int, None),
            points_collected(points0, trees, Some(target), trees.len() as int, None, gone),
            forall|id: u64| (#[trigger]
            field_terms_of(keys, outs, keys.len() as int, id, target)).len() == 0,
            forall|id: u64| (#[trigger]
            field_points_of(trees, Some(target), trees.len() as int, id, target)).len() == 0,
            grouping::grouped_wf(terms@),
            grouping::grouped_wf(points@),
            forall|i: int, f: Seq<char>|
                k <= i < n ==> #[trigger] grouping::items_at(terms@, ids@[i], f)
                    == grouping::items_at(terms0, ids@[i], f),
            forall|i: int, f: Seq<char>|
                k <= i < n ==> #[trigger] grouping::items_at(points@, ids@[i], f)
                    == grouping::items_at(points0, ids@[i], f),
            positions_by_field.wf(),
            doc_values_by_field.wf(),
            forall|f: Seq<char>| #[trigger]
                column_settled(
                    *candidate,
                    *reader,
                    gone,
                    ids@.take(k as int),
                    columns0,
                    doc_values_by_field@,
                    f,
                ),
            are_rebuilt(
                rederive,
                *reader,
                outs,
                target,
                ids@.take(k as int).filter(keep),
                out@,
            ),
            forall|i: int|
                0 <= i < k && !gone.contains(#[trigger] ids@[i]) ==> reader.gone() is Ok,
        decreases n - k,
    {
        let id: u64 = ids[k];
        let ghost columns = doc_values_by_field@;
        proof {
            assert(ids@.to_set().contains(id));
            lemma_filter_step(ids@, k as int, keep);
        }
        if treemap::treemap_contains(deleted, id) {
            proof {
                lemma_column_step(
                    *candidate,
                    *reader,
                    gone,
                    ids@,
                    k as int,
                    columns0,
                    columns,
                    doc_values_by_field@,
                );
            }
            k = k + 1;
            continue;
        }
        let stored: Document = match reader.document(id) {
            Err(e) => return Err(e),
            Ok(None) => {
                proof {
                    lemma_column_step(
                        *candidate,
                        *reader,
                        gone,
                        ids@,
                        k as int,
                        columns0,
                        columns,
                        doc_values_by_field@,
                    );
                }
                k = k + 1;
                continue;
            },
            Ok(Some(d)) => d,
        };
        note_columns(reader, &stored, doc_values_by_field, candidate);
        proof {
            lemma_column_step(
                *candidate,
                *reader,
                gone,
                ids@,
                k as int,
                columns0,
                columns,
                doc_values_by_field@,
            );
        }
        let derived: Option<(Vec<AnalyzedTerm>, Vec<Vec<u64>>)> = match derive_target(
            rederive,
            target_field,
            &stored,
        ) {
            Ok(d) => d,
            Err(e) => {
                proof {
                    assert(is_live(*reader, gone, id));
                    assert forall|j: u64| j < id && #[trigger] is_live(
                        *reader,
                        gone,
                        j,
                    ) implies can_be_derived(*rederive->Some_0, *reader, j, target) by {
                        let done = ids@.take(k as int).filter(keep);
                        assert(keep(j));
                        assert(ids@.to_set().contains(j));
                        lemma_kept_before(ids@, k as int, keep, j);
                        let m = choose|m: int| 0 <= m < done.len() && done[m] == j;
                        assert(out@[m].0 == done[m]);
                        assert(is_rederived(rederive, *reader, j, out@[m].1, target));
                    }
                }
                return Err(e);
            },
        };
        let carried: AnalyzedDocument = match carry(
            reader,
            id,
            stored,
            &mut terms,
            &mut points,
            &recorded,
            Some(target_field),
        ) {
            Ok(a) => a,
            Err(e) => return Err(e),
        };
        let ghost plain = carried;
        proof {
            assert(analyzed::term_views(grouping::items_at(terms0, id, target)).len()
                == field_terms_of(keys, outs, keys.len() as int, id, target).len());
            assert(parser::point_views(grouping::items_at(points0, id, target)).len()
                == field_points_of(trees, Some(target), trees.len() as int, id, target).len());
            assert(parser::terms_in(plain, target) is None);
            assert(parser::points_in(plain, target) is None);
            assert(names::value_of(plain.field_lengths@, target) is None);
        }
        let a: AnalyzedDocument = match derived {
            Some((t, p)) => put_anew(reader, carried, target_field, t, p, &recorded),
            None => carried,
        };
        proof {
            assert forall|f: Seq<char>| f != target implies #[trigger] is_carried(
                *reader,
                Some(target),
                outs,
                id,
                a,
                f,
            ) by {
                assert(parser::terms_in(a, f) == parser::terms_in(plain, f));
                assert(parser::points_in(a, f) == parser::points_in(plain, f));
                assert(names::value_of(a.field_lengths@, f) == names::value_of(
                    plain.field_lengths@,
                    f,
                ));
                assert(parser::terms_in(a, f) == nonempty(
                    analyzed::term_views(grouping::items_at(terms0, id, f)),
                ));
                assert(parser::points_in(a, f) == nonempty(
                    parser::point_views(grouping::items_at(points0, id, f)),
                ));
                assert(is_named(recorded@, f) <==> is_recorded(*reader, f));
                lemma_is_replayed(
                    *reader,
                    gone,
                    None,
                    outs,
                    id,
                    a,
                    terms0,
                    points0,
                    Some(target),
                    f,
                );
            }
            assert(is_rederived(rederive, *reader, id, a, target));
            assert(is_rebuilt(rederive, *reader, outs, target, id, a));
        }
        out.push((id, a));
        proof {
            assert forall|i: int, f: Seq<char>| k + 1 <= i < n implies #[trigger] grouping::items_at(
                terms@,
                ids@[i],
                f,
            ) == grouping::items_at(terms0, ids@[i], f) by {
                assert(ids@[k as int] < ids@[i]);
            }
            assert forall|i: int, f: Seq<char>| k + 1 <= i < n implies #[trigger] grouping::items_at(
                points@,
                ids@[i],
                f,
            ) == grouping::items_at(points0, ids@[i], f) by {
                assert(ids@[k as int] < ids@[i]);
            }
        }
        k = k + 1;
    }
    proof {
        assert(ids@.take(n as int) =~= ids@);
        assert(ids@ == stored_ids(*reader));
        assert forall|id: u64| #[trigger]
            reader.documents()->Ok_0.contains_key(id) && !gone.contains(id) implies reader.gone() is Ok by {
            assert(ids@.to_set().contains(id));
            let i = choose|i: int| 0 <= i < ids@.len() && ids@[i] == id;
            assert(!gone.contains(ids@[i]));
        }
        assert(can_be_replayed(*reader, treemap::treemap_ids(*deleted), Some(target_field@)));
        if rederive is Some {
            assert forall|j: u64| #[trigger] is_live(*reader, gone, j) implies can_be_derived(
                *rederive->Some_0,
                *reader,
                j,
                target,
            ) by {
                let done = ids@.filter(keep);
                assert(keep(j));
                assert(ids@.to_set().contains(j));
                let i = choose|i: int| 0 <= i < ids@.len() && ids@[i] == j;
                ids@.lemma_filter_contains(keep, i);
                let m = choose|m: int| 0 <= m < done.len() && done[m] == j;
                assert(out@[m].0 == done[m]);
                assert(is_rederived(rederive, *reader, j, out@[m].1, target));
            }
        }
        assert(rebuild_done(
            *decode,
            *analyze,
            *candidate,
            rederive,
            *reader,
            treemap::treemap_ids(*deleted),
            target_field@,
            old(positions_by_field)@,
            positions_by_field@,
            old(doc_values_by_field)@,
            doc_values_by_field@,
            out@,
            outs,
        ));
        assert(is_rebuilding(
            *decode,
            *analyze,
            *candidate,
            rederive,
            *reader,
            treemap::treemap_ids(*deleted),
            target_field@,
            old(positions_by_field)@,
            positions_by_field@,
            old(doc_values_by_field)@,
            doc_values_by_field@,
            out@,
        ));
    }
    Ok(out)
}

/// What the analysis of a field of a document gives, where the field is there and is
/// analyzed.
fn derive_target<
    R: Fn(&str, &DataValue) -> Result<(Vec<AnalyzedTerm>, Vec<Vec<u64>>), LaurusError>,
>(rederive: Option<&R>, field: &str, stored: &Document) -> (r: Result<
    Option<(Vec<AnalyzedTerm>, Vec<Vec<u64>>)>,
    LaurusError,
>)
    requires
        stored.wf(),
        rederive is Some ==> forall|f: &str, v: &DataValue|
            call_requires(*rederive->Some_0, (f, v)),
    ensures
        match r {
            Ok(None) => rederive is None || names::value_of(stored@, field@) is None,
            Ok(Some(d)) => rederive is Some && names::value_of(stored@, field@) is Some && derives(
                *rederive->Some_0,
                field@,
                names::value_of(stored@, field@)->Some_0,
                analyzed::term_views(d.0@),
                parser::point_views(d.1@),
            ),
            Err(e) => rederive is Some && names::value_of(stored@, field@) is Some && derive_fails(
                *rederive->Some_0,
                field@,
                names::value_of(stored@, field@)->Some_0,
                e,
            ),
        },
{
    proof {
        segment_reader::lemma_document_value(stored.fields@, field@);
    }
    match rederive {
        None => Ok(None),
        Some(derive) => match stored.get_field(field) {
            None => Ok(None),
            Some(value) => {
                let out = (*derive)(field, value);
                assert(call_ensures(*derive, (field, value), out));
                match out {
                    Ok(d) => Ok(Some(d)),
                    Err(e) => Err(e),
                }
            },
        },
    }
}

/// The field that is left out has no terms and no points.
proof fn lemma_field_terms_left_out<
    D: Fn(&SegmentInfo, u64, PostingFormat) -> Result<DecodedPostingList, LaurusError>,
    N: Fn(&str, &DataValue) -> Result<Vec<AnalyzedTerm>, LaurusError>,
>(
    decode: D,
    analyze: N,
    reader: SegmentReader,
    target: Seq<char>,
    keys: Seq<Seq<char>>,
    outs: Seq<Option<Seq<PostingView>>>,
)
    requires
        are_listed(decode, analyze, reader, Some(target), keys, outs),
        outs.len() == keys.len(),
    ensures
        forall|id: u64| (#[trigger]
        field_terms_of(keys, outs, keys.len() as int, id, target)).len() == 0,
        forall|id: u64| (#[trigger]
        field_points_of(reader.trees(), Some(target), reader.trees().len() as int, id, target)).len()
            == 0,
{
    assert forall|id: u64| (#[trigger]
    field_terms_of(keys, outs, keys.len() as int, id, target)).len() == 0 by {
        lemma_no_terms(decode, analyze, reader, target, keys, outs, keys.len() as int, id);
    }
    assert forall|id: u64| (#[trigger]
    field_points_of(reader.trees(), Some(target), reader.trees().len() as int, id, target)).len()
        == 0 by {
        lemma_no_points(reader.trees(), target, reader.trees().len() as int, id);
    }
}

proof fn lemma_no_terms<
    D: Fn(&SegmentInfo, u64, PostingFormat) -> Result<DecodedPostingList, LaurusError>,
    N: Fn(&str, &DataValue) -> Result<Vec<AnalyzedTerm>, LaurusError>,
>(
    decode: D,
    analyze: N,
    reader: SegmentReader,
    target: Seq<char>,
    keys: Seq<Seq<char>>,
    outs: Seq<Option<Seq<PostingView>>>,
    n: int,
    id: u64,
)
    requires
        are_listed(decode, analyze, reader, Some(target), keys, outs),
        n <= outs.len(),
    ensures
        field_terms_of(keys, outs, n, id, target).len() == 0,
    decreases n,
{
    if n > 0 {
        lemma_no_terms(decode, analyze, reader, target, keys, outs, n - 1, id);
        assert(is_listed(decode, analyze, reader, Some(target), keys[n - 1], outs[n - 1]));
    }
}

proof fn lemma_no_points(
    trees: Seq<(Seq<char>, Result<BKDReader, LaurusError>)>,
    target: Seq<char>,
    n: int,
    id: u64,
)
    ensures
        field_points_of(trees, Some(target), n, id, target).len() == 0,
    decreases n,
{
    if n > 0 {
        lemma_no_points(trees, target, n - 1, id);
    }
}

} // verus!
