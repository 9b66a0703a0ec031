//! The reader of a segment.
//!
//! A segment is made of parts. What was read of a part is kept as it came, so that
//! a part that cannot be read fails whatever needs it, and nothing else.

use std::collections::BTreeMap;
use std::sync::Arc;

use vstd::prelude::*;

use crate::analyzed;
use crate::analyzed::AnalyzedTerm;
use crate::bkd_tree;
use crate::bkd_tree::{BKDReader, BKDTree, Tree};
use crate::data;
use crate::data::{DataValue, DataView, Document, FieldsView};
use crate::deletion::DeletionBitmap;
use crate::dictionary;
use crate::dictionary::{TermDictionary, TermInfo, TermInfoView};
use crate::doc_values;
use crate::doc_values::DocValuesReader;
use crate::error::LaurusError;
use crate::ids;
use crate::live_tree;
use crate::live_tree::{DeletionFilteringBKDTree, DeletionSnapshot};
use crate::names;
use crate::names::FieldMap;
use crate::norms;
use crate::norms::{FieldStats, SegmentNorms};
use crate::posting;
use crate::posting::{DecodedPostingList, Posting, PostingIterator, PostingView};
use crate::posting_iterator::InvertedIndexPostingIterator;
use crate::segment::SegmentInfo;
use crate::sort;
use crate::stored_fields;
use crate::stored_fields::StoredFieldsReader;
use crate::visitor::IntersectVisitor;

verus! {

// ---------------------------------------------------------------------------
// Parts
// ---------------------------------------------------------------------------

/// The parts of a segment, as storage has them.
pub struct SegmentParts {
    /// The term dictionary, where there is one.
    pub dictionary: Result<Option<TermDictionary>, LaurusError>,
    /// Whether there are postings.
    pub has_postings: bool,
    /// The bytes of the `.docs` part.
    pub docs: Option<Vec<u8>>,
    /// The documents of a segment without a `.docs` part, by their position.
    pub positional_docs: Option<Result<Vec<Document>, LaurusError>>,
    /// The bytes of the columns.
    pub doc_values: Option<Vec<u8>>,
    /// Lengths and statistics of fields that were read from columns.
    pub norms: Result<Option<SegmentNorms>, LaurusError>,
    /// The bytes of the `.lens` part.
    pub lens: Option<Vec<u8>>,
    /// The bytes of the `.fstats` part.
    pub fstats: Option<Vec<u8>>,
    /// The deleted documents, where they are recorded.
    pub deletions: Result<Option<DeletionBitmap>, LaurusError>,
    /// The bytes of the point trees, by field.
    pub trees: FieldMap<Vec<u8>>,
}

/// What each document holds.
pub open spec fn document_views(docs: Seq<Document>) -> Seq<FieldsView> {
    docs.map_values(|d: Document| d@)
}

/// Documents with consecutive ids from `first` on.
pub open spec fn positional(first: u64, docs: Seq<FieldsView>) -> Map<u64, FieldsView> {
    Map::new(
        |id: u64| first <= id < first + docs.len(),
        |id: u64| docs[id - first],
    )
}

/// The stored documents of a segment: those of its `.docs` part, else those by
/// position, else none.
pub open spec fn stored_documents_of(
    first: u64,
    docs: Option<Seq<u8>>,
    positional_docs: Option<Result<Seq<FieldsView>, LaurusError>>,
) -> Result<Map<u64, FieldsView>, LaurusError> {
    match docs {
        Some(bytes) => stored_fields::take_file(bytes),
        None => match positional_docs {
            Some(Ok(s)) => Ok(positional(first, s)),
            Some(Err(e)) => Err(e),
            None => Ok(Map::empty()),
        },
    }
}

/// The bytes of a part.
pub open spec fn bytes_of(part: Option<Vec<u8>>) -> Option<Seq<u8>> {
    match part {
        Some(b) => Some(b@),
        None => None,
    }
}

/// The documents by position from the `k`th on.
spec fn positional_from(first: u64, docs: Seq<FieldsView>, k: int) -> Map<u64, FieldsView> {
    Map::new(
        |id: u64| first + k <= id < first + docs.len(),
        |id: u64| docs[id - first],
    )
}

/// Documents by position.
fn documents_by_position(first: u64, docs: Vec<Document>) -> (r: BTreeMap<u64, Document>)
    requires
        first + docs@.len() <= u64::MAX,
        forall|i: int| 0 <= i < docs@.len() ==> (#[trigger] docs@[i]).wf(),
    ensures
        stored_fields::documents_view(r@) == positional(first, document_views(docs@)),
        stored_fields::documents_wf(r@),
{
    let ghost views = document_views(docs@);
    let n: usize = docs.len();
    let mut left: Vec<Document> = docs;
    let mut r: BTreeMap<u64, Document> = BTreeMap::new();
    assert(document_views(left@) =~= views.take(n as int));
    assert(stored_fields::documents_view(r@) =~= positional_from(first, views, n as int));
    while left.len() > 0
        invariant
            first + n <= u64::MAX,
            left@.len() <= n,
            n == views.len(),
            document_views(left@) == views.take(left@.len() as int),
            forall|i: int| 0 <= i < left@.len() ==> (#[trigger] left@[i]).wf(),
            stored_fields::documents_view(r@) == positional_from(first, views, left@.len() as int),
            stored_fields::documents_wf(r@),
        decreases left@.len(),
    {
        let ghost whole = left@;
        match left.pop() {
            Some(doc) => {
                let at: usize = left.len();
                let ghost before = r@;
                proof {
                    assert(document_views(whole)[at as int] == doc@);
                    assert(views[at as int] == doc@);
                    assert(document_views(left@) =~= views.take(at as int));
                    assert(whole[at as int].wf());
                    assert forall|i: int| 0 <= i < left@.len() implies (#[trigger] left@[i]).wf() by {
                        assert(left@[i] == whole[i]);
                    }
                }
                r.insert(first + at as u64, doc);
                proof {
                    let id = (first + at) as u64;
                    assert(stored_fields::documents_view(r@)
                        =~= stored_fields::documents_view(before).insert(id, doc@));
                    assert(positional_from(first, views, at as int) =~= positional_from(
                        first,
                        views,
                        at + 1,
                    ).insert(id, doc@));
                }
            },
            None => {},
        }
    }
    assert(stored_fields::documents_view(r@) =~= positional(first, views));
    r
}

/// Opens the point trees of a segment.
fn open_trees(parts: &FieldMap<Vec<u8>>) -> (r: FieldMap<Result<BKDReader, LaurusError>>)
    requires
        parts.wf(),
    ensures
        r.wf(),
        r@.len() == parts@.len(),
        forall|i: int|
            0 <= i < r@.len() ==> (#[trigger] r@[i]).0 == parts@[i].0 && is_opened(
                r@[i].1,
                parts@[i].1@,
            ),
{
    let mut r: FieldMap<Result<BKDReader, LaurusError>> = FieldMap::new();
    let n: usize = parts.len();
    let mut i: usize = 0;
    while i < n
        invariant
            n == parts@.len(),
            i <= n,
            r@.len() == i,
            forall|j: int|
                0 <= j < i ==> (#[trigger] r@[j]).0 == parts@[j].0 && is_opened(
                    r@[j].1,
                    parts@[j].1@,
                ),
        decreases n - i,
    {
        let bytes: Vec<u8> = data::copy_vec(parts.value_at(i));
        r.push_last(parts.name_at(i).clone(), BKDReader::open(bytes));
        i = i + 1;
    }
    assert forall|i: int, j: int| 0 <= i < j < r@.len() implies names::name_before(
        #[trigger] r@[i].0,
        #[trigger] r@[j].0,
    ) by {
        assert(r@[i].0 == parts@[i].0 && r@[j].0 == parts@[j].0);
    }
    r
}

/// Whether a tree was opened from these bytes.
pub open spec fn is_opened(tree: Result<BKDReader, LaurusError>, bytes: Seq<u8>) -> bool {
    match crate::bkd_tree::take_header(bytes) {
        Err(e) => tree == Err::<BKDReader, LaurusError>(e),
        Ok(h) => tree is Ok && tree->Ok_0.head() == h && tree->Ok_0.file() == bytes,
    }
}

// ---------------------------------------------------------------------------
// The reader
// ---------------------------------------------------------------------------

/// The reader of a segment.
pub struct SegmentReader {
    info: SegmentInfo,
    term_dictionary: Result<Option<TermDictionary>, LaurusError>,
    has_postings: bool,
    stored_documents: Result<BTreeMap<u64, Document>, LaurusError>,
    norms: Result<SegmentNorms, LaurusError>,
    doc_values: Result<DocValuesReader, LaurusError>,
    deletion_bitmap: Result<Option<Arc<DeletionBitmap>>, LaurusError>,
    bkd_trees: FieldMap<Result<BKDReader, LaurusError>>,
}

/// The lengths and statistics that the parts of a segment give.
pub open spec fn norms_of(
    norms: Result<Option<SegmentNorms>, LaurusError>,
    lens: Option<Seq<u8>>,
    fstats: Option<Seq<u8>>,
    r: Result<SegmentNorms, LaurusError>,
) -> bool {
    match norms {
        Err(e) => r == Err::<SegmentNorms, LaurusError>(e),
        Ok(Some(n)) => r == Ok::<SegmentNorms, LaurusError>(n),
        Ok(None) => {
            let lengths = match lens {
                Some(b) => norms::take_lens(b),
                None => Ok(Map::empty()),
            };
            let stats = match fstats {
                Some(b) => norms::take_fstats(b),
                None => Ok(Seq::empty()),
            };
            match (lengths, stats) {
                (Err(e), _) => r == Err::<SegmentNorms, LaurusError>(e),
                (_, Err(e)) => r == Err::<SegmentNorms, LaurusError>(e),
                (Ok(m), Ok(s)) => r is Ok && r->Ok_0.all_lengths() == m && r->Ok_0.all_stats() == s,
            }
        },
    }
}

/// The columns that the bytes of a segment give.
pub open spec fn columns_of(file: Option<Seq<u8>>, r: Result<DocValuesReader, LaurusError>) -> bool {
    match file {
        None => r is Ok && r->Ok_0.fields().len() == 0,
        Some(bytes) => match doc_values::take_directory(bytes) {
            Err(e) => r == Err::<DocValuesReader, LaurusError>(e),
            Ok(dir) => r is Ok && r->Ok_0.fields() == dir && r->Ok_0.file() == bytes,
        },
    }
}

/// What a bitmap marks, where there is one.
pub open spec fn marks_of(b: Result<Option<DeletionBitmap>, LaurusError>) -> Result<
    Option<(Set<u64>, u64)>,
    LaurusError,
> {
    match b {
        Err(e) => Err(e),
        Ok(None) => Ok(None),
        Ok(Some(b)) => Ok(Some((b.marked(), b.size()))),
    }
}

/// Whether parts of a segment are such that it can be opened: names ascend, and what is
/// stored can be numbered.
pub open spec fn can_be_opened(info: SegmentInfo, parts: SegmentParts) -> bool {
    &&& parts.dictionary matches Ok(Some(d)) ==> d.wf()
    &&& parts.positional_docs matches Some(Ok(docs)) ==> info.min_doc_id + docs@.len() <= u64::MAX
        && forall|i: int| 0 <= i < docs@.len() ==> (#[trigger] docs@[i]).wf()
    &&& parts.trees.wf()
}

/// Whether this is the reader of a segment with these parts.
pub open spec fn is_reader_of(r: SegmentReader, info: SegmentInfo, parts: SegmentParts) -> bool {
    &&& r.wf()
    &&& r.about() == info
    &&& r.dictionary() == parts.dictionary
    &&& r.is_indexed() == parts.has_postings
    &&& r.documents() == stored_documents_of(
        info.min_doc_id,
        bytes_of(parts.docs),
        match parts.positional_docs {
            Some(Ok(d)) => Some(Ok(document_views(d@))),
            Some(Err(e)) => Some(Err(e)),
            None => None,
        },
    )
    &&& norms_of(parts.norms, bytes_of(parts.lens), bytes_of(parts.fstats), r.measures())
    &&& columns_of(bytes_of(parts.doc_values), r.columns())
    &&& r.marks() == marks_of(parts.deletions)
    &&& r.trees().len() == parts.trees@.len()
    &&& forall|i: int|
        0 <= i < r.trees().len() ==> (#[trigger] r.trees()[i]).0 == parts.trees@[i].0 && is_opened(
            r.trees()[i].1,
            parts.trees@[i].1@,
        )
}

impl SegmentReader {
    /// The segment.
    pub closed spec fn about(&self) -> SegmentInfo {
        self.info
    }

    /// The term dictionary, where there is one.
    pub closed spec fn dictionary(&self) -> Result<Option<TermDictionary>, LaurusError> {
        self.term_dictionary
    }

    /// Whether there are postings.
    pub closed spec fn is_indexed(&self) -> bool {
        self.has_postings
    }

    /// The stored documents.
    pub closed spec fn documents(&self) -> Result<Map<u64, FieldsView>, LaurusError> {
        match self.stored_documents {
            Ok(m) => Ok(stored_fields::documents_view(m@)),
            Err(e) => Err(e),
        }
    }

    /// The lengths and statistics of fields.
    pub closed spec fn measures(&self) -> Result<SegmentNorms, LaurusError> {
        self.norms
    }

    /// The columns.
    pub closed spec fn columns(&self) -> Result<DocValuesReader, LaurusError> {
        self.doc_values
    }

    /// The marked documents and how many documents the segment was made of, where
    /// that is recorded.
    pub closed spec fn marks(&self) -> Result<Option<(Set<u64>, u64)>, LaurusError> {
        match self.deletion_bitmap {
            Err(e) => Err(e),
            Ok(None) => Ok(None),
            Ok(Some(b)) => Ok(Some((b.marked(), b.size()))),
        }
    }

    /// The point trees, by field.
    pub closed spec fn trees(&self) -> Seq<(Seq<char>, Result<BKDReader, LaurusError>)> {
        self.bkd_trees@
    }

    /// The parts are in order.
    pub closed spec fn wf(&self) -> bool {
        &&& self.term_dictionary matches Ok(Some(d)) ==> d.wf()
        &&& self.stored_documents is Ok ==> stored_fields::documents_wf(
            self.stored_documents->Ok_0@,
        )
        &&& self.bkd_trees.wf()
    }

    /// The deleted documents. Where the segment is not said to have deletions, or no
    /// record of them is there, none is deleted.
    pub open spec fn gone(&self) -> Result<Set<u64>, LaurusError> {
        if !self.about().has_deletions {
            Ok(Set::empty())
        } else {
            match self.marks() {
                Err(e) => Err(e),
                Ok(None) => Ok(Set::empty()),
                Ok(Some((s, _))) => Ok(s),
            }
        }
    }

    /// Opens a segment.
    pub fn open(info: SegmentInfo, parts: SegmentParts) -> (r: SegmentReader)
        requires
            can_be_opened(info, parts),
        ensures
            is_reader_of(r, info, parts),
    {
        let stored_documents: Result<BTreeMap<u64, Document>, LaurusError> = match parts.docs {
            Some(bytes) => StoredFieldsReader::load(bytes.as_slice()),
            None => match parts.positional_docs {
                Some(Ok(docs)) => Ok(documents_by_position(info.min_doc_id, docs)),
                Some(Err(e)) => Err(e),
                None => {
                    let none: BTreeMap<u64, Document> = BTreeMap::new();
                    assert(stored_fields::documents_view(none@) =~= Map::empty());
                    Ok(none)
                },
            },
        };
        let norms: Result<SegmentNorms, LaurusError> = match parts.norms {
            Err(e) => Err(e),
            Ok(Some(n)) => Ok(n),
            Ok(None) => {
                let lens: Option<&[u8]> = match &parts.lens {
                    Some(b) => Some(b.as_slice()),
                    None => None,
                };
                let fstats: Option<&[u8]> = match &parts.fstats {
                    Some(b) => Some(b.as_slice()),
                    None => None,
                };
                SegmentNorms::load(lens, fstats)
            },
        };
        let deletion_bitmap: Result<Option<Arc<DeletionBitmap>>, LaurusError> = match parts.deletions {
            Err(e) => Err(e),
            Ok(None) => Ok(None),
            Ok(Some(b)) => Ok(Some(Arc::new(b))),
        };
        SegmentReader {
            info,
            term_dictionary: parts.dictionary,
            has_postings: parts.has_postings,
            stored_documents,
            norms,
            doc_values: DocValuesReader::load(parts.doc_values),
            deletion_bitmap,
            bkd_trees: open_trees(&parts.trees),
        }
    }

    /// Opens a segment. A schema is not needed and has no effect: use [`Self::open`].
    pub fn open_with_schema(info: SegmentInfo, _schema: Arc<()>, parts: SegmentParts) -> (r:
        SegmentReader)
        requires
            can_be_opened(info, parts),
        ensures
            is_reader_of(r, info, parts),
    {
        SegmentReader::open(info, parts)
    }

    /// The segment.
    pub fn segment_info(&self) -> (r: &SegmentInfo)
        ensures
            *r == self.about(),
    {
        &self.info
    }
}

/// Postings without those of deleted documents.
pub open spec fn live_postings(s: Seq<PostingView>, gone: Set<u64>) -> Seq<PostingView> {
    s.filter(|p: PostingView| !gone.contains(p.doc_id))
}

/// The version of a format of postings.
#[derive(Debug, Clone, Copy, PartialEq, Eq, Structural)]
pub enum PostingFormat {
    V1,
    V2,
    V3,
}

/// The format that a dictionary names; any version but the first two is the third.
pub open spec fn format_of(version: u32) -> PostingFormat {
    if version == 1 {
        PostingFormat::V1
    } else if version == 2 {
        PostingFormat::V2
    } else {
        PostingFormat::V3
    }
}

/// Documents named by a term: its positions in the terms of a field.
pub open spec fn positions_in(terms: Seq<analyzed::TermView>, term: Seq<char>) -> Seq<u32>
    decreases terms.len(),
{
    if terms.len() == 0 {
        Seq::empty()
    } else if terms.last().term == term {
        positions_in(terms.drop_last(), term).push(terms.last().position)
    } else {
        positions_in(terms.drop_last(), term)
    }
}

/// Whether `analyze` makes these terms of the value of a field, or fails so.
pub open spec fn analyzes<N: Fn(&str, &DataValue) -> Result<Vec<AnalyzedTerm>, LaurusError>>(
    analyze: N,
    field: Seq<char>,
    value: DataView,
    out: Result<Seq<analyzed::TermView>, LaurusError>,
) -> bool {
    exists|f: &str, v: &DataValue, r: Result<Vec<AnalyzedTerm>, LaurusError>|
        {
            &&& f@ == field
            &&& v@ == value
            &&& #[trigger] call_ensures(analyze, (f, v), r)
            &&& match r {
                Ok(t) => out == Ok::<Seq<analyzed::TermView>, LaurusError>(analyzed::term_views(t@)),
                Err(e) => out == Err::<Seq<analyzed::TermView>, LaurusError>(e),
            }
        }
}

/// What the scan of a stored document finds: the posting of the term, or nothing
/// where the document is deleted, lacks the field or does not hold the term.
pub open spec fn scans<N: Fn(&str, &DataValue) -> Result<Vec<AnalyzedTerm>, LaurusError>>(
    analyze: N,
    docs: Map<u64, FieldsView>,
    gone: Set<u64>,
    field: Seq<char>,
    term: Seq<char>,
    id: u64,
    out: Result<Option<PostingView>, LaurusError>,
) -> bool {
    if gone.contains(id) {
        out == Ok::<Option<PostingView>, LaurusError>(None)
    } else {
        match names::value_of(docs[id], field) {
            None => out == Ok::<Option<PostingView>, LaurusError>(None),
            Some(v) => exists|t: Result<Seq<analyzed::TermView>, LaurusError>| #[trigger]
                analyzes(analyze, field, v, t) && out == match t {
                    Err(e) => Err::<Option<PostingView>, LaurusError>(e),
                    Ok(terms) => {
                        let p = positions_in(terms, term);
                        if p.len() == 0 {
                            Ok(None)
                        } else {
                            Ok(
                                Some(
                                    PostingView {
                                        doc_id: posting::narrowed(id) as u64,
                                        frequency: (p.len() as u32) as u64,
                                        positions: posting::widened(p),
                                    },
                                ),
                            )
                        }
                    },
                },
        }
    }
}

/// Whether the scan of a stored document succeeds so.
pub open spec fn scan_finds<N: Fn(&str, &DataValue) -> Result<Vec<AnalyzedTerm>, LaurusError>>(
    analyze: N,
    docs: Map<u64, FieldsView>,
    gone: Set<u64>,
    field: Seq<char>,
    term: Seq<char>,
    id: u64,
    out: Option<PostingView>,
) -> bool {
    scans(analyze, docs, gone, field, term, id, Ok(out))
}

/// Whether the scan of a stored document fails so.
pub open spec fn scan_fails<N: Fn(&str, &DataValue) -> Result<Vec<AnalyzedTerm>, LaurusError>>(
    analyze: N,
    docs: Map<u64, FieldsView>,
    gone: Set<u64>,
    field: Seq<char>,
    term: Seq<char>,
    id: u64,
    e: LaurusError,
) -> bool {
    scans(analyze, docs, gone, field, term, id, Err(e))
}

/// Whether the scan of each document finds what stands beside it.
pub open spec fn scan_finds_each<
    N: Fn(&str, &DataValue) -> Result<Vec<AnalyzedTerm>, LaurusError>,
>(
    analyze: N,
    docs: Map<u64, FieldsView>,
    gone: Set<u64>,
    field: Seq<char>,
    term: Seq<char>,
    ids: Seq<u64>,
    outs: Seq<Option<PostingView>>,
) -> bool {
    &&& outs.len() <= ids.len()
    &&& forall|i: int|
        0 <= i < outs.len() ==> scan_finds(analyze, docs, gone, field, term, ids[i], #[trigger] outs[i])
}

/// What is there.
pub open spec fn present<T>(outs: Seq<Option<T>>) -> Seq<T>
    decreases outs.len(),
{
    if outs.len() == 0 {
        Seq::empty()
    } else {
        match outs.last() {
            Some(p) => present(outs.drop_last()).push(p),
            None => present(outs.drop_last()),
        }
    }
}

/// Whether a scan of all documents, in ascending order of their ids, finds these
/// postings.
pub open spec fn scan_found<N: Fn(&str, &DataValue) -> Result<Vec<AnalyzedTerm>, LaurusError>>(
    analyze: N,
    docs: Map<u64, FieldsView>,
    gone: Set<u64>,
    field: Seq<char>,
    term: Seq<char>,
    found: Seq<PostingView>,
) -> bool {
    exists|ids: Seq<u64>, outs: Seq<Option<PostingView>>|
        {
            &&& sort::ascends(ids)
            &&& ids.to_set() == docs.dom()
            &&& #[trigger] scan_finds_each(analyze, docs, gone, field, term, ids, outs)
            &&& outs.len() == ids.len()
            &&& found == present(outs)
        }
}

/// Whether the scan of some document fails so, while those of the documents of lower ids
/// do not.
pub open spec fn scan_failed<N: Fn(&str, &DataValue) -> Result<Vec<AnalyzedTerm>, LaurusError>>(
    analyze: N,
    docs: Map<u64, FieldsView>,
    gone: Set<u64>,
    field: Seq<char>,
    term: Seq<char>,
    e: LaurusError,
) -> bool {
    exists|ids: Seq<u64>, outs: Seq<Option<PostingView>>|
        {
            &&& sort::ascends(ids)
            &&& ids.to_set() == docs.dom()
            &&& #[trigger] scan_finds_each(analyze, docs, gone, field, term, ids, outs)
            &&& outs.len() < ids.len()
            &&& scan_fails(analyze, docs, gone, field, term, ids[outs.len() as int], e)
        }
}

/// Whether the scan of the stored documents ends so: with an error, without a
/// posting, or with these postings.
pub open spec fn scan_ends<N: Fn(&str, &DataValue) -> Result<Vec<AnalyzedTerm>, LaurusError>>(
    analyze: N,
    docs: Result<Map<u64, FieldsView>, LaurusError>,
    gone: Result<Set<u64>, LaurusError>,
    field: Seq<char>,
    term: Seq<char>,
    out: Result<Option<Seq<PostingView>>, LaurusError>,
) -> bool {
    match docs {
        Err(e) => out == Err::<Option<Seq<PostingView>>, LaurusError>(e),
        Ok(m) => match gone {
            Err(e) => out == if m.dom() =~= Set::empty() {
                Ok::<Option<Seq<PostingView>>, LaurusError>(None)
            } else {
                Err(e)
            },
            Ok(g) => match out {
                Err(e) => scan_failed(analyze, m, g, field, term, e),
                Ok(None) => scan_found(analyze, m, g, field, term, Seq::empty()),
                Ok(Some(found)) => found.len() > 0 && scan_found(analyze, m, g, field, term, found),
            },
        },
    }
}

/// The positions of a term in the terms of a field.
fn positions_of(terms: &Vec<AnalyzedTerm>, term: &str) -> (r: Vec<u32>)
    ensures
        r@ == positions_in(analyzed::term_views(terms@), term@),
{
    let ghost views = analyzed::term_views(terms@);
    let n: usize = terms.len();
    let mut r: Vec<u32> = Vec::new();
    let mut i: usize = 0;
    assert(views.take(0) =~= Seq::empty());
    while i < n
        invariant
            n == terms@.len(),
            views == analyzed::term_views(terms@),
            i <= n,
            r@ == positions_in(views.take(i as int), term@),
        decreases n - i,
    {
        proof {
            assert(views.take(i + 1).drop_last() =~= views.take(i as int));
            assert(views.take(i + 1).last() == terms@[i as int]@);
        }
        if names::same_name(terms[i].term.as_str(), term) {
            r.push(terms[i].position);
        }
        i = i + 1;
    }
    assert(views.take(n as int) =~= views);
    r
}

/// Whether every list that `decode` gives is well formed.
pub open spec fn decodes_well<
    D: Fn(&SegmentInfo, u64, PostingFormat) -> Result<DecodedPostingList, LaurusError>,
>(decode: D) -> bool {
    forall|s: &SegmentInfo, o: u64, f: PostingFormat, l: Result<DecodedPostingList, LaurusError>|
        #[trigger] call_ensures(decode, (s, o, f), l) ==> l is Ok ==> l->Ok_0.wf()
}

/// What the bytes that a dictionary points to decode to.
pub open spec fn decoded_as<D: Fn(&SegmentInfo, u64, PostingFormat) -> Result<DecodedPostingList, LaurusError>>(
    decode: D,
    segment: SegmentInfo,
    info: TermInfoView,
    version: u32,
    list: Result<DecodedPostingList, LaurusError>,
) -> bool {
    call_ensures(decode, (&segment, info.posting_offset, format_of(version)), list)
}

/// Whether the postings of a term are these: without postings in the segment, what a
/// scan of the stored documents finds; else what the dictionary points to, decoded,
/// without deleted documents.
pub open spec fn postings_end<
    D: Fn(&SegmentInfo, u64, PostingFormat) -> Result<DecodedPostingList, LaurusError>,
    N: Fn(&str, &DataValue) -> Result<Vec<AnalyzedTerm>, LaurusError>,
>(
    decode: D,
    analyze: N,
    reader: SegmentReader,
    field: Seq<char>,
    term: Seq<char>,
    out: Result<Option<Seq<PostingView>>, LaurusError>,
) -> bool {
    if !reader.is_indexed() {
        scan_ends(analyze, reader.documents(), reader.gone(), field, term, out)
    } else {
        match reader.dictionary() {
            Err(e) => out == Err::<Option<Seq<PostingView>>, LaurusError>(e),
            Ok(None) => out == Ok::<Option<Seq<PostingView>>, LaurusError>(None),
            Ok(Some(d)) => match d.entry(field, term) {
                None => out == Ok::<Option<Seq<PostingView>>, LaurusError>(None),
                Some(info) => exists|list: Result<DecodedPostingList, LaurusError>| #[trigger]
                    decoded_as(decode, reader.about(), info, d.posting_format_version, list) && out == match list {
                        Err(e) => Err::<Option<Seq<PostingView>>, LaurusError>(e),
                        Ok(l) => match reader.gone() {
                            Err(e) => Err(e),
                            Ok(g) => {
                                let live = live_postings(l.postings(), g);
                                if live.len() == 0 {
                                    Ok(None)
                                } else {
                                    Ok(Some(live))
                                }
                            },
                        },
                    },
            },
        }
    }
}

/// What an iterator that was made has ahead.
pub open spec fn postings_shown(
    r: Result<Option<InvertedIndexPostingIterator>, LaurusError>,
) -> Result<Option<Seq<PostingView>>, LaurusError> {
    match r {
        Err(e) => Err(e),
        Ok(None) => Ok(None),
        Ok(Some(it)) => Ok(Some(it.ahead())),
    }
}

impl SegmentReader {
    /// The documents that are stored, in ascending order.
    pub fn doc_ids(&self) -> (r: Result<Vec<u64>, LaurusError>)
        ensures
            match self.documents() {
                Err(e) => r == Err::<Vec<u64>, LaurusError>(e),
                Ok(m) => r is Ok && sort::ascends(r->Ok_0@) && r->Ok_0@.to_set() == m.dom(),
            },
    {
        match &self.stored_documents {
            Ok(m) => {
                assert(stored_fields::documents_view(m@).dom() =~= m@.dom());
                Ok(ids::ordered_ids(m))
            },
            Err(e) => Err(e.clone()),
        }
    }

    /// Whether a document is deleted.
    pub fn is_deleted(&self, doc_id: u64) -> (r: Result<bool, LaurusError>)
        ensures
            r == match self.gone() {
                Ok(g) => Ok::<bool, LaurusError>(g.contains(doc_id)),
                Err(e) => Err(e),
            },
    {
        if !self.info.has_deletions {
            return Ok(false);
        }
        match &self.deletion_bitmap {
            Err(e) => Err(e.clone()),
            Ok(None) => Ok(false),
            Ok(Some(bitmap)) => Ok(bitmap.is_deleted(doc_id)),
        }
    }

    /// What marks deleted documents, where the segment is said to have any.
    pub fn deletion_bitmap(&self) -> (r: Result<Option<&Arc<DeletionBitmap>>, LaurusError>)
        ensures
            match self.gone() {
                Err(e) => r is Err && r->Err_0 == e,
                Ok(g) => r is Ok && match r->Ok_0 {
                    Some(b) => bitmap_marks(*b) == g,
                    None => g == Set::<u64>::empty(),
                },
            },
    {
        if !self.info.has_deletions {
            return Ok(None);
        }
        match &self.deletion_bitmap {
            Err(e) => Err(e.clone()),
            Ok(None) => Ok(None),
            Ok(Some(b)) => Ok(Some(b)),
        }
    }

    /// Drops the postings of deleted documents. The skip table is made anew, and
    /// the weights, which no iterator shows, are left out.
    pub fn filter_deleted_soa(&self, decoded: DecodedPostingList) -> (r: Result<
        DecodedPostingList,
        LaurusError,
    >)
        requires
            decoded.wf(),
        ensures
            match self.gone() {
                Err(e) => r == Err::<DecodedPostingList, LaurusError>(e),
                Ok(g) => {
                    &&& r is Ok
                    &&& r->Ok_0.wf()
                    &&& r->Ok_0.postings() == live_postings(decoded.postings(), g)
                    &&& r->Ok_0.term@ == decoded.term@
                    &&& r->Ok_0.total_frequency == decoded.total_frequency
                    &&& r->Ok_0.doc_frequency == decoded.doc_frequency
                    &&& !self.about().has_deletions || self.marks() == Ok::<
                        Option<(Set<u64>, u64)>,
                        LaurusError,
                    >(None) ==> r->Ok_0 == decoded
                },
            },
    {
        if !self.info.has_deletions {
            proof {
                lemma_live_postings_of_none(decoded.postings());
            }
            return Ok(decoded);
        }
        let bitmap: &Arc<DeletionBitmap> = match &self.deletion_bitmap {
            Err(e) => return Err(e.clone()),
            Ok(None) => {
                proof {
                    lemma_live_postings_of_none(decoded.postings());
                }
                return Ok(decoded);
            },
            Ok(Some(b)) => b,
        };
        let ghost g = self.gone()->Ok_0;
        let ghost all = decoded.postings();
        let n: usize = decoded.doc_ids.len();
        let mut doc_ids: Vec<u32> = Vec::new();
        let mut frequencies: Vec<u32> = Vec::new();
        let mut kept: Vec<Option<Vec<u32>>> = Vec::new();
        let has_positions: bool = decoded.positions.is_some();
        let ghost mut live: Seq<PostingView> = Seq::empty();
        let mut i: usize = 0;
        proof {
            reveal(Seq::filter);
            assert(all.take(0) =~= Seq::empty());
            assert(live_postings(all.take(0), g) =~= live);
        }
        while i < n
            invariant
                decoded.wf(),
                n == decoded.doc_ids@.len(),
                i <= n,
                all == decoded.postings(),
                g == bitmap_marks(*bitmap),
                has_positions == (decoded.positions is Some),
                live == live_postings(all.take(i as int), g),
                doc_ids@.len() == live.len(),
                frequencies@.len() == live.len(),
                has_positions ==> kept@.len() == live.len(),
                forall|j: int|
                    0 <= j < live.len() ==> #[trigger] live[j] == (PostingView {
                        doc_id: doc_ids@[j] as u64,
                        frequency: frequencies@[j] as u64,
                        positions: if has_positions {
                            posting::positions_view(kept@[j])
                        } else {
                            Seq::empty()
                        },
                    }),
            decreases n - i,
        {
            proof {
                lemma_live_postings_push(all, i as int, g);
                assert(all[i as int] == decoded.posting(i as int));
            }
            if !bitmap.is_deleted(decoded.doc_ids[i] as u64) {
                doc_ids.push(decoded.doc_ids[i]);
                frequencies.push(decoded.frequencies[i]);
                if let Some(source) = &decoded.positions {
                    kept.push(posting::copy_positions(&source[i]));
                }
                proof {
                    live = live.push(all[i as int]);
                }
            }
            i = i + 1;
        }
        assert(all.take(n as int) =~= all);
        let skip_levels: Vec<Vec<u32>> = posting::build_skip_levels(&doc_ids);
        let positions: Option<Vec<Option<Vec<u32>>>> = if has_positions {
            Some(kept)
        } else {
            None
        };
        let r = DecodedPostingList {
            term: decoded.term,
            doc_ids,
            frequencies,
            weights: Vec::new(),
            positions,
            skip_levels,
            total_frequency: decoded.total_frequency,
            doc_frequency: decoded.doc_frequency,
        };
        assert(r.postings() =~= live);
        Ok(r)
    }

    /// The value of a document in the column of a field. A deleted document has none.
    pub fn get_doc_value<C: Fn(&[u8]) -> Result<Vec<(u64, DataValue)>, LaurusError>>(
        &self,
        field: &str,
        doc_id: u64,
        decode: &C,
    ) -> (r: Result<Option<DataValue>, LaurusError>)
        requires
            forall|s: &[u8]| call_requires(*decode, (s,)),
        ensures
            match self.gone() {
                Err(e) => r == Err::<Option<DataValue>, LaurusError>(e),
                Ok(g) => if g.contains(doc_id) {
                    r == Ok::<Option<DataValue>, LaurusError>(None)
                } else {
                    match self.columns() {
                        Err(e) => r == Err::<Option<DataValue>, LaurusError>(e),
                        Ok(c) => column_value(*decode, c, field@, doc_id, r),
                    }
                },
            },
    {
        match self.is_deleted(doc_id) {
            Err(e) => return Err(e),
            Ok(true) => return Ok(None),
            Ok(false) => {},
        }
        match &self.doc_values {
            Err(e) => Err(e.clone()),
            Ok(reader) => reader.get_value(field, doc_id, decode),
        }
    }

    /// Whether a field has a column.
    pub fn has_doc_values(&self, field: &str) -> (r: bool)
        ensures
            r == match self.columns() {
                Err(_) => false,
                Ok(c) => names::has_name(c.fields(), field@),
            },
    {
        match &self.doc_values {
            Err(_) => false,
            Ok(reader) => reader.has_field(field),
        }
    }

    /// The statistics of a field.
    pub fn field_stats(&self, field: &str) -> (r: Result<Option<FieldStats>, LaurusError>)
        ensures
            stats_answered(self.measures(), field@, r),
    {
        match &self.norms {
            Err(e) => Err(e.clone()),
            Ok(norms) => Ok(norms.field_stats(field)),
        }
    }

    /// The length of a field of a document. A deleted document has none.
    pub fn field_length(&self, doc_id: u64, field: &str) -> (r: Result<Option<u32>, LaurusError>)
        ensures
            r == match self.gone() {
                Err(e) => Err::<Option<u32>, LaurusError>(e),
                Ok(g) => if g.contains(doc_id) {
                    Ok(None)
                } else {
                    match self.measures() {
                        Err(e) => Err(e),
                        Ok(n) => Ok(n.length_of(doc_id, field@)),
                    }
                },
            },
    {
        match self.is_deleted(doc_id) {
            Err(e) => return Err(e),
            Ok(true) => return Ok(None),
            Ok(false) => {},
        }
        match &self.norms {
            Err(e) => Err(e.clone()),
            Ok(norms) => Ok(norms.field_length(doc_id, field)),
        }
    }

    /// The names of the fields that have statistics.
    pub fn norms_field_names(&self) -> (r: Result<Vec<String>, LaurusError>)
        ensures
            match self.measures() {
                Err(e) => r == Err::<Vec<String>, LaurusError>(e),
                Ok(n) => r is Ok && r->Ok_0@.len() == n.all_stats().len() && forall|i: int|
                    0 <= i < r->Ok_0@.len() ==> #[trigger] r->Ok_0@[i]@ == n.all_stats()[i].0,
            },
    {
        match &self.norms {
            Err(e) => Err(e.clone()),
            Ok(norms) => Ok(norms.field_names()),
        }
    }

    /// A stored document. A deleted document is not there.
    pub fn document(&self, doc_id: u64) -> (r: Result<Option<Document>, LaurusError>)
        requires
            self.wf(),
        ensures
            match self.live_document(doc_id) {
                Err(e) => r == Err::<Option<Document>, LaurusError>(e),
                Ok(None) => r == Ok::<Option<Document>, LaurusError>(None),
                Ok(Some(d)) => r is Ok && r->Ok_0 is Some && r->Ok_0->Some_0@ == d
                    && r->Ok_0->Some_0.wf(),
            },
    {
        match &self.stored_documents {
            Err(e) => Err(e.clone()),
            Ok(documents) => {
                assert(stored_fields::documents_view(documents@).dom() =~= documents@.dom());
                match self.is_deleted(doc_id) {
                    Err(e) => Err(e),
                    Ok(true) => Ok(None),
                    Ok(false) => match documents.get(&doc_id) {
                        Some(doc) => {
                            assert(documents@.contains_key(doc_id));
                            Ok(Some(doc.clone()))
                        },
                        None => Ok(None),
                    },
                }
            },
        }
    }

    /// The stored document with this id that is not deleted.
    pub open spec fn live_document(&self, doc_id: u64) -> Result<Option<FieldsView>, LaurusError> {
        match self.documents() {
            Err(e) => Err(e),
            Ok(m) => match self.gone() {
                Err(e) => Err(e),
                Ok(g) => if g.contains(doc_id) || !m.contains_key(doc_id) {
                    Ok(None)
                } else {
                    Ok(Some(m[doc_id]))
                },
            },
        }
    }
}

/// What a bitmap marks.
pub open spec fn bitmap_marks(b: Arc<DeletionBitmap>) -> Set<u64> {
    b.marked()
}

/// Whether the column of a field gives this value to a document.
pub open spec fn column_value<C: Fn(&[u8]) -> Result<Vec<(u64, DataValue)>, LaurusError>>(
    decode: C,
    columns: DocValuesReader,
    field: Seq<char>,
    doc_id: u64,
    r: Result<Option<DataValue>, LaurusError>,
) -> bool {
    match names::value_of(columns.fields(), field) {
        None => r == Ok::<Option<DataValue>, LaurusError>(None),
        Some(record) => exists|res: Result<Seq<(u64, DataValue)>, LaurusError>| #[trigger]
            doc_values::decodes(decode, columns.payload(record), res) && match res {
                Err(e) => r == Err::<Option<DataValue>, LaurusError>(e),
                Ok(v) => r is Ok && (r->Ok_0 is Some <==> doc_values::collected(v).dom().contains(
                    doc_id,
                )) && (r->Ok_0 is Some ==> r->Ok_0->Some_0@ == doc_values::collected(v)[doc_id]@),
            },
    }
}

/// Whether these are the statistics of a field.
pub open spec fn stats_answered(
    measures: Result<SegmentNorms, LaurusError>,
    field: Seq<char>,
    r: Result<Option<FieldStats>, LaurusError>,
) -> bool {
    match measures {
        Err(e) => r == Err::<Option<FieldStats>, LaurusError>(e),
        Ok(n) => match names::value_of(n.all_stats(), field) {
            Some(s) => r is Ok && r->Ok_0 is Some && r->Ok_0->Some_0@ == s,
            None => r == Ok::<Option<FieldStats>, LaurusError>(None),
        },
    }
}

proof fn lemma_live_postings_of_none(s: Seq<PostingView>)
    ensures
        live_postings(s, Set::empty()) == s,
    decreases s.len(),
{
    reveal(Seq::filter);
    if s.len() > 0 {
        lemma_live_postings_of_none(s.drop_last());
        assert(live_postings(s, Set::empty()) =~= s);
    } else {
        assert(live_postings(s, Set::empty()) =~= s);
    }
}

proof fn lemma_live_postings_push(s: Seq<PostingView>, i: int, gone: Set<u64>)
    requires
        0 <= i < s.len(),
    ensures
        live_postings(s.take(i + 1), gone) == if gone.contains(s[i].doc_id) {
            live_postings(s.take(i), gone)
        } else {
            live_postings(s.take(i), gone).push(s[i])
        },
{
    reveal(Seq::filter);
    assert(s.take(i + 1).drop_last() =~= s.take(i));
    assert(s.take(i + 1).last() == s[i]);
}

/// Whether a field is among those asked for.
pub open spec fn is_asked(field_names: Seq<&str>, name: Seq<char>) -> bool {
    exists|i: int| 0 <= i < field_names.len() && #[trigger] field_names[i]@ == name
}

/// Whether `out` holds the fields of a document that were asked for.
pub open spec fn holds_asked(
    doc: FieldsView,
    field_names: Seq<&str>,
    out: Seq<(Seq<char>, DataValue)>,
    name: Seq<char>,
) -> bool {
    match names::value_of(out, name) {
        Some(v) => is_asked(field_names, name) && names::value_of(doc, name) == Some(v@),
        None => !is_asked(field_names, name) || names::value_of(doc, name) is None,
    }
}

/// The value of a name in what a document holds.
pub proof fn lemma_document_value(s: Seq<(Seq<char>, DataValue)>, name: Seq<char>)
    requires
        names::names_ascend(s),
    ensures
        names::value_of(data::fields_view(s), name) == match names::value_of(s, name) {
            Some(v) => Some(v@),
            None => None,
        },
{
    let t = data::fields_view(s);
    data::lemma_fields_view_ascend(s);
    if names::has_name(s, name) {
        let i = choose|i: int| 0 <= i < s.len() && #[trigger] s[i].0 == name;
        assert(t[i].0 == name);
        names::lemma_value_at(s, name, i);
        names::lemma_value_at(t, name, i);
    } else if names::has_name(t, name) {
        let i = choose|i: int| 0 <= i < t.len() && #[trigger] t[i].0 == name;
        assert(s[i].0 == name);
    }
}

/// The point tree of a segment: as it is, or without deleted documents.
pub enum SegmentTree<'a> {
    Whole(&'a BKDReader),
    Live(DeletionFilteringBKDTree<&'a BKDReader>),
}

impl<'a> BKDTree for SegmentTree<'a> {
    open spec fn tree(&self) -> Tree {
        match *self {
            SegmentTree::Whole(t) => t.tree(),
            SegmentTree::Live(t) => t.tree(),
        }
    }

    fn intersect<V: IntersectVisitor>(&self, visitor: &mut V) -> (r: Result<(), LaurusError>) {
        match self {
            SegmentTree::Whole(t) => t.intersect(visitor),
            SegmentTree::Live(t) => t.intersect(visitor),
        }
    }

    /// As the file states it; without deleted documents it is not known.
    fn value_range(&self, dim: usize) -> (r: Option<(u64, u64, u64)>)
        ensures
            r == match *self {
                SegmentTree::Whole(t) => bkd_tree::stated_range(t.head(), dim),
                SegmentTree::Live(_) => None,
            },
    {
        match self {
            SegmentTree::Whole(t) => (**t).value_range(dim),
            SegmentTree::Live(t) => t.value_range(dim),
        }
    }
}

/// The deleted documents within the range of a segment.
pub open spec fn gone_within(info: SegmentInfo, gone: Set<u64>) -> Set<u64> {
    Set::new(|id: u64| info.min_doc_id <= id <= info.max_doc_id && gone.contains(id))
}

impl SegmentReader {
    /// The fields of a stored document that are asked for. A deleted document is not
    /// there.
    pub fn document_fields(&self, doc_id: u64, field_names: &[&str]) -> (r: Result<
        Option<FieldMap<DataValue>>,
        LaurusError,
    >)
        requires
            self.wf(),
        ensures
            match self.live_document(doc_id) {
                Err(e) => r == Err::<Option<FieldMap<DataValue>>, LaurusError>(e),
                Ok(None) => r == Ok::<Option<FieldMap<DataValue>>, LaurusError>(None),
                Ok(Some(d)) => r is Ok && r->Ok_0 is Some && r->Ok_0->Some_0.wf() && forall|
                    name: Seq<char>,
                | #[trigger] holds_asked(d, field_names@, r->Ok_0->Some_0@, name),
            },
    {
        let documents: &BTreeMap<u64, Document> = match &self.stored_documents {
            Err(e) => return Err(e.clone()),
            Ok(documents) => documents,
        };
        assert(stored_fields::documents_view(documents@).dom() =~= documents@.dom());
        match self.is_deleted(doc_id) {
            Err(e) => return Err(e),
            Ok(true) => return Ok(None),
            Ok(false) => {},
        }
        let doc: &Document = match documents.get(&doc_id) {
            Some(doc) => doc,
            None => return Ok(None),
        };
        assert(documents@.contains_key(doc_id));
        let ghost d = doc@;
        let mut out: FieldMap<DataValue> = FieldMap::new();
        let n: usize = field_names.len();
        let mut i: usize = 0;
        assert forall|name: Seq<char>| #[trigger]
            holds_asked(d, field_names@.take(0), out@, name) by {
            assert(!names::has_name(out@, name));
        }
        while i < n
            invariant
                n == field_names@.len(),
                i <= n,
                doc.wf(),
                d == doc@,
                out.wf(),
                forall|name: Seq<char>| #[trigger]
                    holds_asked(d, field_names@.take(i as int), out@, name),
            decreases n - i,
        {
            let asked: &str = field_names[i];
            let ghost before = out@;
            proof {
                lemma_document_value(doc.fields@, asked@);
            }
            if let Some(value) = doc.get_field(asked) {
                let copy: DataValue = value.clone();
                proof {
                    names::lemma_with_value(before, asked@, copy);
                }
                out.insert(asked.to_string(), copy);
            }
            proof {
                let now = field_names@.take(i + 1);
                let earlier = field_names@.take(i as int);
                assert forall|name: Seq<char>| #[trigger] holds_asked(d, now, out@, name) by {
                    assert(holds_asked(d, earlier, before, name));
                    assert(now[i as int]@ == asked@);
                    if is_asked(earlier, name) {
                        let k = choose|k: int|
                            0 <= k < earlier.len() && #[trigger] earlier[k]@ == name;
                        assert(now[k]@ == name);
                    }
                    if is_asked(now, name) && name != asked@ {
                        let k = choose|k: int| 0 <= k < now.len() && #[trigger] now[k]@ == name;
                        assert(earlier[k]@ == name);
                    }
                }
            }
            i = i + 1;
        }
        assert(field_names@.take(n as int) =~= field_names@);
        Ok(Some(out))
    }

    /// What the dictionary says of a term.
    pub fn term_info(&self, field: &str, term: &str) -> (r: Result<Option<TermInfo>, LaurusError>)
        requires
            self.wf(),
        ensures
            match self.entry(field@, term@) {
                Err(e) => r == Err::<Option<TermInfo>, LaurusError>(e),
                Ok(None) => r == Ok::<Option<TermInfo>, LaurusError>(None),
                Ok(Some(v)) => r is Ok && r->Ok_0 is Some && r->Ok_0->Some_0@ == v,
            },
    {
        match &self.term_dictionary {
            Err(e) => Err(e.clone()),
            Ok(None) => Ok(None),
            Ok(Some(dict)) => Ok(dict.get(field, term)),
        }
    }

    /// What the dictionary says of a term.
    pub open spec fn entry(&self, field: Seq<char>, term: Seq<char>) -> Result<
        Option<TermInfoView>,
        LaurusError,
    > {
        match self.dictionary() {
            Err(e) => Err(e),
            Ok(None) => Ok(None),
            Ok(Some(d)) => Ok(d.entry(field, term)),
        }
    }

    /// The dictionary, where there is one.
    pub fn term_dictionary(&self) -> (r: Result<Option<&TermDictionary>, LaurusError>)
        ensures
            match self.dictionary() {
                Err(e) => r == Err::<Option<&TermDictionary>, LaurusError>(e),
                Ok(None) => r == Ok::<Option<&TermDictionary>, LaurusError>(None),
                Ok(Some(d)) => r is Ok && r->Ok_0 is Some && *r->Ok_0->Some_0 == d,
            },
    {
        match &self.term_dictionary {
            Err(e) => Err(e.clone()),
            Ok(None) => Ok(None),
            Ok(Some(dict)) => Ok(Some(dict)),
        }
    }

    /// Whether there is a dictionary that can be read.
    pub fn has_term_dictionary(&self) -> (r: bool)
        ensures
            r == (self.dictionary() is Ok && self.dictionary()->Ok_0 is Some),
    {
        match &self.term_dictionary {
            Ok(Some(_)) => true,
            _ => false,
        }
    }

    /// Reads every part that a query needs; the first that cannot be read fails.
    pub fn load(&self) -> (r: Result<(), LaurusError>)
        ensures
            r == if self.dictionary() is Err {
                Err::<(), LaurusError>(self.dictionary()->Err_0)
            } else if self.documents() is Err {
                Err(self.documents()->Err_0)
            } else if self.columns() is Err {
                Err(self.columns()->Err_0)
            } else if self.gone() is Err {
                Err(self.gone()->Err_0)
            } else {
                Ok(())
            },
    {
        if let Err(e) = &self.term_dictionary {
            return Err(e.clone());
        }
        if let Err(e) = &self.stored_documents {
            return Err(e.clone());
        }
        if let Err(e) = &self.doc_values {
            return Err(e.clone());
        }
        if self.info.has_deletions {
            if let Err(e) = &self.deletion_bitmap {
                return Err(e.clone());
            }
        }
        Ok(())
    }

    /// How many documents are not deleted.
    pub fn doc_count(&self) -> (r: u64)
        ensures
            !self.about().has_deletions ==> r == self.about().doc_count,
            self.about().has_deletions ==> match self.marks() {
                Ok(Some((marked, size))) => marked.len() <= u64::MAX ==> r == if size >= marked.len() {
                    (size - marked.len()) as u64
                } else {
                    0
                },
                _ => r == self.about().doc_count,
            },
    {
        if !self.info.has_deletions {
            return self.info.doc_count;
        }
        match &self.deletion_bitmap {
            Ok(Some(bitmap)) => bitmap.live_count(),
            _ => self.info.doc_count,
        }
    }

    /// The names of the dictionary ascend.
    pub proof fn lemma_dictionary_ascends(&self)
        requires
            self.wf(),
        ensures
            self.dictionary() matches Ok(Some(d)) ==> names::names_ascend(d.terms@),
    {
    }

    /// The fields that have a point tree ascend.
    pub proof fn lemma_trees_ascend(&self)
        requires
            self.wf(),
        ensures
            names::names_ascend(self.trees()),
    {
    }

    /// The fields that have a point tree, in ascending order.
    pub fn bkd_field_names(&self) -> (r: Vec<String>)
        ensures
            r@.len() == self.trees().len(),
            forall|i: int| 0 <= i < r@.len() ==> #[trigger] r@[i]@ == self.trees()[i].0,
    {
        let mut names: Vec<String> = Vec::new();
        let n: usize = self.bkd_trees.len();
        let mut i: usize = 0;
        while i < n
            invariant
                n == self.bkd_trees@.len(),
                i <= n,
                names@.len() == i,
                forall|j: int| 0 <= j < i ==> #[trigger] names@[j]@ == self.bkd_trees@[j].0,
            decreases n - i,
        {
            names.push(self.bkd_trees.name_at(i).clone());
            i = i + 1;
        }
        names
    }

    /// The point tree of a field, with the points of deleted documents.
    pub fn get_bkd_tree(&self, field: &str) -> (r: Result<Option<&BKDReader>, LaurusError>)
        requires
            self.wf(),
        ensures
            match names::value_of(self.trees(), field@) {
                None => r == Ok::<Option<&BKDReader>, LaurusError>(None),
                Some(Err(e)) => r == Err::<Option<&BKDReader>, LaurusError>(e),
                Some(Ok(t)) => r is Ok && r->Ok_0 is Some && *r->Ok_0->Some_0 == t,
            },
    {
        match self.bkd_trees.get(field) {
            None => Ok(None),
            Some(Err(e)) => Err(e.clone()),
            Some(Ok(tree)) => Ok(Some(tree)),
        }
    }

    /// The point tree of a field without the points of deleted documents. A segment
    /// that is not said to have deletions, or has no record of them, gives the tree as
    /// it is.
    pub fn get_filtered_bkd_tree(&self, field: &str) -> (r: Result<Option<SegmentTree>, LaurusError>)
        requires
            self.wf(),
        ensures
            match names::value_of(self.trees(), field@) {
                None => r is Ok && r->Ok_0 is None,
                Some(Err(e)) => r is Err && r->Err_0 == e,
                Some(Ok(t)) => match self.gone() {
                    Err(e) => r is Err && r->Err_0 == e,
                    Ok(g) => {
                        &&& r is Ok
                        &&& r->Ok_0 is Some
                        &&& r->Ok_0->Some_0 is Live <==> self.about().has_deletions
                            && self.marks()->Ok_0 is Some
                        &&& r->Ok_0->Some_0 is Whole ==> r->Ok_0->Some_0.tree() == t.tree()
                        &&& r->Ok_0->Some_0 is Live ==> r->Ok_0->Some_0.tree()
                            == live_tree::live_tree(t.tree(), gone_within(self.about(), g))
                    },
                },
            },
    {
        let tree: &BKDReader = match self.get_bkd_tree(field) {
            Err(e) => return Err(e),
            Ok(None) => return Ok(None),
            Ok(Some(tree)) => tree,
        };
        if !self.info.has_deletions {
            return Ok(Some(SegmentTree::Whole(tree)));
        }
        let bitmap: Arc<DeletionBitmap> = match &self.deletion_bitmap {
            Err(e) => return Err(e.clone()),
            Ok(None) => return Ok(Some(SegmentTree::Whole(tree))),
            Ok(Some(b)) => b.clone(),
        };
        let snapshot = DeletionSnapshot {
            bitmaps: vec![(self.info.min_doc_id, self.info.max_doc_id, bitmap)],
        };
        proof {
            let g = self.gone()->Ok_0;
            assert(snapshot.gone() =~= gone_within(self.about(), g)) by {
                assert forall|id: u64|
                    snapshot.gone().contains(id) == gone_within(self.about(), g).contains(id) by {
                    let b = snapshot.bitmaps@;
                    assert(b[0] == (self.info.min_doc_id, self.info.max_doc_id, bitmap));
                    assert(live_tree::marked_in(b[0].2) == g);
                }
            }
        }
        Ok(Some(SegmentTree::Live(DeletionFilteringBKDTree { inner: tree, snapshot })))
    }
}

impl SegmentReader {
    /// Finds a term by a scan of the stored documents, each of which `analyze` takes
    /// apart as it did for the index.
    #[verifier::rlimit(40)]
    pub fn scan_documents_for_term<
        N: Fn(&str, &DataValue) -> Result<Vec<AnalyzedTerm>, LaurusError>,
    >(&self, field: &str, term: &str, analyze: &N) -> (r: Result<
        Option<InvertedIndexPostingIterator>,
        LaurusError,
    >)
        requires
            self.wf(),
            forall|f: &str, v: &DataValue| call_requires(*analyze, (f, v)),
        ensures
            scan_ends(*analyze, self.documents(), self.gone(), field@, term@, postings_shown(r)),
            r matches Ok(Some(it)) ==> it.wf() && !it.begun() && it.costs() == posting::even_costs(
                it.ahead().len(),
                it.ahead().len(),
            ),
    {
        let documents: &BTreeMap<u64, Document> = match &self.stored_documents {
            Err(e) => return Err(e.clone()),
            Ok(documents) => documents,
        };
        let ghost m = self.documents()->Ok_0;
        assert(m.dom() =~= documents@.dom());
        let ids: Vec<u64> = ids::ordered_ids(documents);
        let n: usize = ids.len();
        let mut postings: Vec<Posting> = Vec::new();
        let ghost mut outs: Seq<Option<PostingView>> = Seq::empty();
        let mut i: usize = 0;
        assert(crate::posting_iterator::shown_postings(postings@) =~= Seq::empty());
        while i < n
            invariant
                self.wf(),
                self.stored_documents == Ok::<BTreeMap<u64, Document>, LaurusError>(*documents),
                self.documents() == Ok::<Map<u64, FieldsView>, LaurusError>(m),
                m == stored_fields::documents_view(documents@),
                m.dom() == documents@.dom(),
                sort::ascends(ids@),
                ids@.to_set() == m.dom(),
                n == ids@.len(),
                i <= n,
                forall|f: &str, v: &DataValue| call_requires(*analyze, (f, v)),
                i > 0 ==> self.gone() is Ok,
                self.gone() is Ok ==> scan_finds_each(
                    *analyze,
                    m,
                    self.gone()->Ok_0,
                    field@,
                    term@,
                    ids@,
                    outs,
                ),
                outs.len() == i,
                present(outs) == crate::posting_iterator::shown_postings(postings@),
            decreases n - i,
        {
            let id: u64 = ids[i];
            proof {
                assert(ids@.contains(id));
                assert(ids@.to_set().contains(id));
                assert(documents@.contains_key(id));
            }
            let deleted: bool = match self.is_deleted(id) {
                Err(e) => {
                    assert(!(m.dom() =~= Set::empty()));
                    return Err(e);
                },
                Ok(b) => b,
            };
            let ghost g = self.gone()->Ok_0;
            let ghost mut out: Option<PostingView> = None;
            if !deleted {
                if let Some(doc) = documents.get(&id) {
                    assert(doc@ == m[id]);
                    proof {
                        lemma_document_value(doc.fields@, field@);
                    }
                    if let Some(value) = doc.get_field(field) {
                        let terms: Vec<AnalyzedTerm> = match (*analyze)(field, value) {
                            Err(e) => {
                                assert(analyzes(*analyze, field@, value@, Err(e)));
                                assert(scan_fails(*analyze, m, g, field@, term@, id, e));
                                assert(scan_finds_each(
                                    *analyze,
                                    m,
                                    g,
                                    field@,
                                    term@,
                                    ids@,
                                    outs,
                                ));
                                assert(scan_failed(*analyze, m, g, field@, term@, e));
                                return Err(e);
                            },
                            Ok(terms) => terms,
                        };
                        let positions: Vec<u32> = positions_of(&terms, term);
                        let ghost views = analyzed::term_views(terms@);
                        assert(analyzes(*analyze, field@, value@, Ok(views)));
                        if positions.len() > 0 {
                            let frequency: u32 = positions.len() as u32;
                            let p = Posting {
                                doc_id: id,
                                frequency,
                                positions: Some(positions),
                                weight: posting::WEIGHT_ONE,
                            };
                            let ghost before = postings@;
                            postings.push(p);
                            proof {
                                out = Some(p.shown());
                                assert(p.shown().positions =~= posting::widened(
                                    positions_in(views, term@),
                                ));
                                assert(crate::posting_iterator::shown_postings(postings@)
                                    =~= crate::posting_iterator::shown_postings(before).push(
                                    p.shown(),
                                ));
                            }
                        }
                    }
                }
            }
            proof {
                assert(scan_finds(*analyze, m, g, field@, term@, ids@[i as int], out));
                assert(outs.push(out).drop_last() =~= outs);
                outs = outs.push(out);
            }
            i = i + 1;
        }
        proof {
            if n == 0 {
                assert(ids@.to_set() =~= Set::empty());
            }
            if self.gone() is Err {
                assert(n == 0);
            }
        }
        proof {
            if self.gone() is Ok {
                assert(scan_finds_each(
                    *analyze,
                    m,
                    self.gone()->Ok_0,
                    field@,
                    term@,
                    ids@,
                    outs,
                ));
                assert(scan_found(*analyze, m, self.gone()->Ok_0, field@, term@, present(outs)));
            }
        }
        if postings.len() == 0 {
            assert(present(outs) =~= Seq::empty());
            Ok(None)
        } else {
            let it: InvertedIndexPostingIterator = InvertedIndexPostingIterator::with_blocks(
                postings,
                64,
            );
            Ok(Some(it))
        }
    }

    /// The postings of a term without those of deleted documents. `decode` decodes the
    /// postings that stand at an offset in a format; `analyze` takes a value apart as
    /// it did for the index, for a segment that has no postings.
    pub fn postings<
        D: Fn(&SegmentInfo, u64, PostingFormat) -> Result<DecodedPostingList, LaurusError>,
        N: Fn(&str, &DataValue) -> Result<Vec<AnalyzedTerm>, LaurusError>,
    >(&self, field: &str, term: &str, decode: &D, analyze: &N) -> (r: Result<
        Option<InvertedIndexPostingIterator>,
        LaurusError,
    >)
        requires
            self.wf(),
            forall|s: &SegmentInfo, o: u64, f: PostingFormat| call_requires(*decode, (s, o, f)),
            decodes_well(*decode),
            forall|f: &str, v: &DataValue| call_requires(*analyze, (f, v)),
        ensures
            postings_end(*decode, *analyze, *self, field@, term@, postings_shown(r)),
            r matches Ok(Some(it)) ==> it.wf() && !it.begun() && it.costs() == posting::even_costs(
                it.ahead().len(),
                it.ahead().len(),
            ),
    {
        if !self.has_postings {
            return self.scan_documents_for_term(field, term, analyze);
        }
        let dict: &TermDictionary = match &self.term_dictionary {
            Err(e) => return Err(e.clone()),
            Ok(None) => return Ok(None),
            Ok(Some(dict)) => dict,
        };
        let info: TermInfo = match dict.get(field, term) {
            None => return Ok(None),
            Some(info) => info,
        };
        let version: u32 = dict.posting_format_version;
        let format: PostingFormat = if version == 1 {
            PostingFormat::V1
        } else if version == 2 {
            PostingFormat::V2
        } else {
            PostingFormat::V3
        };
        let list: Result<DecodedPostingList, LaurusError> = (*decode)(
            &self.info,
            info.posting_offset,
            format,
        );
        assert(decoded_as(*decode, self.info, info@, version, list));
        let decoded: DecodedPostingList = match list {
            Err(e) => return Err(e),
            Ok(l) => l,
        };
        match self.filter_deleted_soa(decoded) {
            Err(e) => Err(e),
            Ok(live) => {
                assert(live.postings().len() == live.doc_ids@.len());
                if live.is_empty() {
                    Ok(None)
                } else {
                    Ok(Some(InvertedIndexPostingIterator::from_decoded_soa(live)))
                }
            },
        }
    }
}

/// A deleted document has no posting: no posting that a segment shows is of one.
pub proof fn lemma_no_deleted_posting(s: Seq<PostingView>, gone: Set<u64>, i: int)
    requires
        0 <= i < live_postings(s, gone).len(),
    ensures
        !gone.contains(live_postings(s, gone)[i].doc_id),
        s.contains(live_postings(s, gone)[i]),
    decreases s.len(),
{
    reveal(Seq::filter);
    if s.len() > 0 {
        let front = s.drop_last();
        let live = live_postings(s, gone);
        if i < live_postings(front, gone).len() {
            lemma_no_deleted_posting(front, gone, i);
            assert(live[i] == live_postings(front, gone)[i]);
            let k = choose|k: int| 0 <= k < front.len() && front[k] == live[i];
            assert(s[k] == live[i]);
        } else {
            assert(live[i] == s.last());
            assert(s[s.len() - 1] == live[i]);
        }
    }
}

/// A posting of a document that is not deleted is kept.
pub proof fn lemma_live_posting_kept(s: Seq<PostingView>, gone: Set<u64>, i: int)
    requires
        0 <= i < s.len(),
        !gone.contains(s[i].doc_id),
    ensures
        live_postings(s, gone).contains(s[i]),
    decreases s.len(),
{
    reveal(Seq::filter);
    let front = s.drop_last();
    let live = live_postings(s, gone);
    if i < front.len() {
        lemma_live_posting_kept(front, gone, i);
        let before = live_postings(front, gone);
        let k = choose|k: int| 0 <= k < before.len() && before[k] == s[i];
        assert(live[k] == s[i]);
    } else {
        assert(live.last() == s[i]);
    }
}

// ---------------------------------------------------------------------------
// File names
// ---------------------------------------------------------------------------

/// The field whose point tree a file of a segment is: the file is named by the
/// segment, the field and `bkd`, with dots between them.
pub open spec fn tree_field(segment_id: Seq<char>, file: Seq<char>) -> Option<Seq<char>> {
    let prefix = segment_id + "."@;
    let suffix = ".bkd"@;
    if prefix.is_prefix_of(file) {
        let rest = file.skip(prefix.len() as int);
        if suffix.is_suffix_of(rest) {
            Some(rest.take(rest.len() - suffix.len()))
        } else {
            None
        }
    } else {
        None
    }
}

/// The fields whose point trees are among the first `n` files.
pub open spec fn tree_fields(segment_id: Seq<char>, files: Seq<String>, n: int) -> Seq<Seq<char>>
    decreases n,
{
    if n <= 0 {
        Seq::empty()
    } else {
        match tree_field(segment_id, files[n - 1]@) {
            Some(f) => tree_fields(segment_id, files, n - 1).push(f),
            None => tree_fields(segment_id, files, n - 1),
        }
    }
}

/// The field whose point tree a file of a segment is.
fn field_of_tree_file<'a>(prefix: &str, file: &'a str) -> (r: Option<&'a str>)
    ensures
        forall|id: Seq<char>| prefix@ == id + "."@ ==> match #[trigger] tree_field(id, file@) {
            Some(f) => r is Some && r->Some_0@ == f,
            None => r is None,
        },
{
    let suffix: &str = ".bkd";
    let n: usize = file.unicode_len();
    let p: usize = prefix.unicode_len();
    let s: usize = suffix.unicode_len();
    if n < p {
        return None;
    }
    let head: &str = file.substring_char(0, p);
    if !names::same_name(head, prefix) {
        proof {
            if prefix@.is_prefix_of(file@) {
                assert(head@ =~= prefix@);
            }
        }
        return None;
    }
    let rest: &str = file.substring_char(p, n);
    proof {
        assert(prefix@.is_prefix_of(file@)) by {
            assert(head@ == prefix@);
            assert(file@.subrange(0, p as int) == prefix@);
        }
        assert(rest@ =~= file@.skip(p as int));
    }
    if n - p < s {
        return None;
    }
    let tail: &str = rest.substring_char(n - p - s, n - p);
    if !names::same_name(tail, suffix) {
        proof {
            if suffix@.is_suffix_of(rest@) {
                assert(tail@ =~= suffix@);
            }
        }
        return None;
    }
    proof {
        assert(suffix@.is_suffix_of(rest@)) by {
            assert(rest@.subrange(n - p - s, n - p) == suffix@);
        }
        assert(rest@.subrange(0, n - p - s) =~= rest@.take(n - p - s));
    }
    Some(rest.substring_char(0, n - p - s))
}

/// The fields whose point trees are among the files of a segment.
pub fn bkd_fields_of(segment_id: &str, files: &Vec<String>) -> (r: Vec<String>)
    ensures
        data::texts(r@) == tree_fields(segment_id@, files@, files@.len() as int),
{
    let mut prefix: String = segment_id.to_string();
    prefix.append(".");
    let mut r: Vec<String> = Vec::new();
    let n: usize = files.len();
    let mut i: usize = 0;
    assert(data::texts(r@) =~= tree_fields(segment_id@, files@, 0));
    while i < n
        invariant
            n == files@.len(),
            i <= n,
            prefix@ == segment_id@ + "."@,
            data::texts(r@) == tree_fields(segment_id@, files@, i as int),
        decreases n - i,
    {
        let ghost before = r@;
        let ghost f = tree_field(segment_id@, files@[i as int]@);
        if let Some(field) = field_of_tree_file(prefix.as_str(), files[i].as_str()) {
            r.push(field.to_string());
            assert(data::texts(r@) =~= data::texts(before).push(f->Some_0));
        }
        i = i + 1;
    }
    r
}

} // verus!
