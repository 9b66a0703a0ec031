//! The reader of an index: of all its segments.

use std::sync::Arc;

use roaring::RoaringTreemap;

use vstd::prelude::*;

use crate::analyzed::AnalyzedTerm;
use crate::bkd_tree::{BKDReader, BKDTree, Tree};
use crate::data;
use crate::data::{DataValue, Document, FieldsView};
use crate::deletion::DeletionBitmap;
use crate::dictionary;
use crate::dictionary::{BlockMax, TermDictionary, TermInfo, TermInfoView};
use crate::error::LaurusError;
use crate::floats;
use crate::live_tree;
use crate::live_tree::{DeletionFilteringBKDTree, DeletionSnapshot, MultiSegmentBKDTree};
use crate::names;
use crate::names::FieldMap;
use crate::norms::{FieldStats, StatsView};
use crate::numbers;
use crate::numbers::{Forms, Number};
use crate::posting;
use crate::posting::{DecodedPostingList, PostingIterator, PostingView};
use crate::posting_iterator;
use crate::posting_iterator::{InvertedIndexPostingIterator, MergedPostingIterator};
use crate::segment::SegmentInfo;
use crate::segment_reader;
use crate::segment_reader::{PostingFormat, SegmentReader};
use crate::sort;
use crate::term_cache;
use crate::term_cache::{CacheManager, CacheStats};

verus! {

/// Settings of a reader.
#[derive(Debug, Clone, Copy, PartialEq, Eq, Structural)]
pub struct InvertedIndexReaderConfig {
    /// How many bytes caches may use.
    pub max_cache_memory: usize,
    pub enable_term_cache: bool,
    pub enable_posting_cache: bool,
    /// Whether every segment is read when the reader is made.
    pub preload_segments: bool,
    pub max_cached_terms_per_field: usize,
    /// How many results of queries are kept.
    pub query_filter_cache_capacity: usize,
}

impl Default for InvertedIndexReaderConfig {
    fn default() -> (r: InvertedIndexReaderConfig)
        ensures
            r.max_cache_memory == 134_217_728,
            r.enable_term_cache,
            r.enable_posting_cache,
            !r.preload_segments,
            r.max_cached_terms_per_field == 10_000,
            r.query_filter_cache_capacity == 1024,
    {
        InvertedIndexReaderConfig {
            max_cache_memory: 134_217_728,
            enable_term_cache: true,
            enable_posting_cache: true,
            preload_segments: false,
            max_cached_terms_per_field: 10_000,
            query_filter_cache_capacity: 1024,
        }
    }
}

/// The first answer that is there.
pub open spec fn first_of<T>(answers: Seq<Option<T>>) -> Option<T>
    decreases answers.len(),
{
    if answers.len() == 0 {
        None
    } else {
        match answers[0] {
            Some(v) => Some(v),
            None => first_of(answers.drop_first()),
        }
    }
}

/// Where no answer stands before `k`, the answer at `k` is the first.
proof fn lemma_first_of<T>(answers: Seq<Option<T>>, k: int)
    requires
        0 <= k <= answers.len(),
        forall|i: int| 0 <= i < k ==> (#[trigger] answers[i]) is None,
    ensures
        k < answers.len() && answers[k] is Some ==> first_of(answers) == answers[k],
        k == answers.len() ==> first_of(answers) is None,
    decreases k,
{
    if k > 0 {
        assert(answers[0] is None);
        let rest = answers.drop_first();
        assert forall|i: int| 0 <= i < k - 1 implies (#[trigger] rest[i]) is None by {
            assert(rest[i] == answers[i + 1]);
        }
        lemma_first_of(rest, k - 1);
        if k < answers.len() {
            assert(rest[k - 1] == answers[k]);
        }
    }
}

/// How many documents segments have.
pub open spec fn total_docs(readers: Seq<SegmentReader>, n: int) -> nat
    decreases n,
{
    if n <= 0 {
        0
    } else {
        total_docs(readers, n - 1) + readers[n - 1].about().doc_count as nat
    }
}

proof fn lemma_total_docs(readers: Seq<SegmentReader>, k: int, n: int)
    requires
        0 <= k <= n,
    ensures
        total_docs(readers, k) <= total_docs(readers, n),
    decreases n,
{
    if k < n {
        lemma_total_docs(readers, k, n - 1);
    }
}

/// How loading segments ends: with the first error, if any.
pub open spec fn load_error(reader: SegmentReader) -> Option<LaurusError> {
    if reader.dictionary() is Err {
        Some(reader.dictionary()->Err_0)
    } else if reader.documents() is Err {
        Some(reader.documents()->Err_0)
    } else if reader.columns() is Err {
        Some(reader.columns()->Err_0)
    } else if reader.gone() is Err {
        Some(reader.gone()->Err_0)
    } else {
        None
    }
}

/// How many documents of a segment are not deleted.
pub open spec fn live_size(reader: SegmentReader) -> nat {
    if !reader.about().has_deletions {
        reader.about().doc_count as nat
    } else {
        match reader.marks() {
            Ok(Some((marked, size))) => if size >= marked.len() {
                (size - marked.len()) as nat
            } else {
                0
            },
            _ => reader.about().doc_count as nat,
        }
    }
}

/// Whether the marked documents of a segment can be counted.
pub open spec fn countable(reader: SegmentReader) -> bool {
    match reader.marks() {
        Ok(Some((marked, _))) => marked.len() <= u64::MAX,
        _ => true,
    }
}

/// How many documents of the first `n` segments are not deleted.
pub open spec fn live_total(readers: Seq<SegmentReader>, n: int) -> nat
    decreases n,
{
    if n <= 0 {
        0
    } else {
        live_total(readers, n - 1) + live_size(readers[n - 1])
    }
}

proof fn lemma_live_total(readers: Seq<SegmentReader>, k: int, n: int)
    requires
        0 <= k <= n,
    ensures
        live_total(readers, k) <= live_total(readers, n),
    decreases n,
{
    if k < n {
        lemma_live_total(readers, k, n - 1);
    }
}

/// The reader of an index.
pub struct InvertedIndexReader {
    segment_readers: Vec<SegmentReader>,
    cache_manager: CacheManager,
    config: InvertedIndexReaderConfig,
    closed: bool,
    total_doc_count: u64,
}

impl InvertedIndexReader {
    /// The readers of the segments.
    pub closed spec fn segments(&self) -> Seq<SegmentReader> {
        self.segment_readers@
    }

    /// The cache of terms.
    pub closed spec fn cache(&self) -> CacheManager {
        self.cache_manager
    }

    /// The settings.
    pub closed spec fn settings(&self) -> InvertedIndexReaderConfig {
        self.config
    }

    /// Whether the reader was closed.
    pub closed spec fn has_closed(&self) -> bool {
        self.closed
    }

    /// The segments and the cache are in order.
    pub closed spec fn wf(&self) -> bool {
        &&& forall|i: int|
            0 <= i < self.segment_readers@.len() ==> (#[trigger] self.segment_readers@[i]).wf()
        &&& self.cache_manager.wf()
        &&& self.total_doc_count == total_docs(
            self.segment_readers@,
            self.segment_readers@.len() as int,
        )
    }

    /// A reader of segments. Where the settings ask for it every segment is read at
    /// once, and the first that cannot be read fails.
    pub fn new(segments: Vec<SegmentReader>, config: InvertedIndexReaderConfig) -> (r: Result<
        InvertedIndexReader,
        LaurusError,
    >)
        requires
            config.max_cache_memory < 0x4000_0000_0000_0000,
            total_docs(segments@, segments@.len() as int) <= u64::MAX,
            forall|i: int| 0 <= i < segments@.len() ==> (#[trigger] segments@[i]).wf(),
        ensures
            ({
                let failed = first_of(segments@.map_values(|s: SegmentReader| load_error(s)));
                if config.preload_segments && failed is Some {
                    r is Err && r->Err_0 == failed->Some_0
                } else {
                    &&& r is Ok
                    &&& r->Ok_0.wf()
                    &&& r->Ok_0.segments() == segments@
                    &&& r->Ok_0.settings() == config
                    &&& !r->Ok_0.has_closed()
                    &&& r->Ok_0.cache().entries().len() == 0
                    &&& r->Ok_0.cache().limit() == config.max_cache_memory
                    &&& r->Ok_0.cache().hits() == 0
                    &&& r->Ok_0.cache().misses() == 0
                }
            }),
    {
        let ghost errors = segments@.map_values(|s: SegmentReader| load_error(s));
        let n: usize = segments.len();
        let mut total_doc_count: u64 = 0;
        let mut i: usize = 0;
        while i < n
            invariant
                n == segments@.len(),
                i <= n,
                errors == segments@.map_values(|s: SegmentReader| load_error(s)),
                total_docs(segments@, n as int) <= u64::MAX,
                total_doc_count == total_docs(segments@, i as int),
                config.preload_segments ==> forall|j: int| 0 <= j < i ==> (#[trigger] errors[j]) is None,
            decreases n - i,
        {
            proof {
                lemma_total_docs(segments@, i + 1, n as int);
            }
            total_doc_count = total_doc_count + segments[i].segment_info().doc_count;
            if config.preload_segments {
                match segments[i].load() {
                    Ok(_) => {},
                    Err(e) => {
                        proof {
                            assert(errors[i as int] == Some(e));
                            lemma_first_of(errors, i as int);
                        }
                        return Err(e);
                    },
                }
            }
            i = i + 1;
        }
        proof {
            if config.preload_segments {
                lemma_first_of(errors, n as int);
            }
        }
        Ok(
            InvertedIndexReader {
                segment_readers: segments,
                cache_manager: CacheManager::new(config.max_cache_memory),
                config,
                closed: false,
                total_doc_count,
            },
        )
    }

    /// Whether every document counts in what dictionaries say of terms: whether every
    /// segment has a dictionary.
    pub fn term_info_is_authoritative(&self) -> (r: bool)
        ensures
            r == forall|i: int|
                0 <= i < self.segments().len() ==> (#[trigger] self.segments()[i]).dictionary() is Ok
                    && self.segments()[i].dictionary()->Ok_0 is Some,
    {
        let n: usize = self.segment_readers.len();
        let mut i: usize = 0;
        while i < n
            invariant
                n == self.segment_readers@.len(),
                i <= n,
                forall|j: int|
                    0 <= j < i ==> (#[trigger] self.segment_readers@[j]).dictionary() is Ok
                        && self.segment_readers@[j].dictionary()->Ok_0 is Some,
            decreases n - i,
        {
            if !self.segment_readers[i].has_term_dictionary() {
                assert(!(self.segments()[i as int].dictionary() is Ok
                    && self.segments()[i as int].dictionary()->Ok_0 is Some));
                return false;
            }
            i = i + 1;
        }
        true
    }

    /// What the cache has been used for.
    pub fn cache_stats(&self) -> (r: CacheStats)
        requires
            self.wf(),
        ensures
            r == (CacheStats {
                hits: self.cache().hits(),
                misses: self.cache().misses(),
                memory_usage: (self.cache().entries().len()
                    * term_cache::EST_TERM_ENTRY_BYTES) as usize,
                memory_limit: self.cache().limit(),
            }),
    {
        self.cache_manager.stats()
    }

    /// The documents that a query finds. `key` names them, where they can be kept under a
    /// name, and `kept` are those that are kept under it; what is kept is found without
    /// searching. Otherwise `search` is asked. The second part of the result says whether
    /// what was found is to be kept under the name.
    pub fn matching_doc_ids<M: Fn() -> Result<RoaringTreemap, LaurusError>>(
        &self,
        key: Option<&str>,
        kept: Option<Arc<RoaringTreemap>>,
        search: &M,
    ) -> (r: Result<(Arc<RoaringTreemap>, bool), LaurusError>)
        requires
            call_requires(*search, ()),
        ensures
            match (key, kept) {
                (Some(_), Some(known)) => r == Ok::<(Arc<RoaringTreemap>, bool), LaurusError>(
                    (known, false),
                ),
                _ => match r {
                    Ok((found, keep)) => keep == (key is Some) && call_ensures(
                        *search,
                        (),
                        Ok::<RoaringTreemap, LaurusError>(*found),
                    ),
                    Err(e) => call_ensures(*search, (), Err::<RoaringTreemap, LaurusError>(e)),
                },
            },
    {
        if key.is_some() {
            if let Some(known) = kept {
                return Ok((known, false));
            }
        }
        match (*search)() {
            Ok(found) => Ok((Arc::new(found), key.is_some())),
            Err(e) => Err(e),
        }
    }

    /// How many segments there are.
    pub fn segment_count(&self) -> (r: usize)
        ensures
            r == self.segments().len(),
    {
        self.segment_readers.len()
    }

    /// The readers of the segments.
    pub fn segment_readers(&self) -> (r: &Vec<SegmentReader>)
        ensures
            r@ == self.segments(),
    {
        &self.segment_readers
    }

    fn check_closed(&self) -> (r: Result<(), LaurusError>)
        ensures
            r is Err <==> self.has_closed(),
            r is Err ==> r->Err_0 == LaurusError::ReaderClosed,
    {
        if self.closed {
            Err(LaurusError::ReaderClosed)
        } else {
            Ok(())
        }
    }

    /// Closes the reader.
    pub fn close(&mut self) -> (r: Result<(), LaurusError>)
        requires
            old(self).wf(),
        ensures
            r is Ok,
            final(self).wf(),
            final(self).has_closed(),
            final(self).segments() == old(self).segments(),
            final(self).settings() == old(self).settings(),
            final(self).cache() == old(self).cache(),
    {
        self.closed = true;
        Ok(())
    }

    /// Whether the reader was closed.
    pub fn is_closed(&self) -> (r: bool)
        ensures
            r == self.has_closed(),
    {
        self.closed
    }

    /// The length of a field of a document: that of the first segment whose range has
    /// the document and that knows it. A segment that cannot be read is passed over.
    pub fn field_length(&self, doc_id: u64, field: &str) -> (r: Result<Option<u32>, LaurusError>)
        ensures
            r == if self.has_closed() {
                Err::<Option<u32>, LaurusError>(LaurusError::ReaderClosed)
            } else {
                Ok(
                    first_of(
                        self.segments().map_values(
                            |s: SegmentReader| length_in(s, doc_id, field@),
                        ),
                    ),
                )
            },
    {
        match self.check_closed() {
            Ok(_) => {},
            Err(e) => return Err(e),
        }
        let ghost answers = self.segments().map_values(
            |s: SegmentReader| length_in(s, doc_id, field@),
        );
        let n: usize = self.segment_readers.len();
        let mut i: usize = 0;
        while i < n
            invariant
                n == self.segment_readers@.len(),
                i <= n,
                !self.has_closed(),
                answers == self.segments().map_values(
                    |s: SegmentReader| length_in(s, doc_id, field@),
                ),
                forall|j: int| 0 <= j < i ==> (#[trigger] answers[j]) is None,
            decreases n - i,
        {
            let reader: &SegmentReader = &self.segment_readers[i];
            assert(answers[i as int] == length_in(*reader, doc_id, field@));
            let info: &SegmentInfo = reader.segment_info();
            if info.min_doc_id <= doc_id && doc_id <= info.max_doc_id {
                if let Ok(Some(length)) = reader.field_length(doc_id, field) {
                    proof {
                        lemma_first_of(answers, i as int);
                    }
                    return Ok(Some(length));
                }
            }
            i = i + 1;
        }
        proof {
            lemma_first_of(answers, n as int);
        }
        Ok(None)
    }

    /// How many documents are not deleted.
    pub fn doc_count(&self) -> (r: u64)
        requires
            forall|i: int| 0 <= i < self.segments().len() ==> countable(#[trigger] self.segments()[i]),
            live_total(self.segments(), self.segments().len() as int) <= u64::MAX,
        ensures
            r == live_total(self.segments(), self.segments().len() as int),
    {
        let n: usize = self.segment_readers.len();
        let mut count: u64 = 0;
        let mut i: usize = 0;
        while i < n
            invariant
                n == self.segment_readers@.len(),
                i <= n,
                forall|i: int|
                    0 <= i < self.segments().len() ==> countable(#[trigger] self.segments()[i]),
                live_total(self.segments(), n as int) <= u64::MAX,
                count == live_total(self.segments(), i as int),
            decreases n - i,
        {
            proof {
                lemma_live_total(self.segments(), i + 1, n as int);
                assert(countable(self.segments()[i as int]));
            }
            count = count + self.segment_readers[i].doc_count();
            i = i + 1;
        }
        count
    }

    /// How many documents there are, with those that are deleted.
    pub fn max_doc(&self) -> (r: u64)
        requires
            self.wf(),
        ensures
            r == total_docs(self.segments(), self.segments().len() as int),
    {
        self.total_doc_count
    }

    /// Whether a document is deleted in some segment. A segment whose deletions cannot
    /// be read is passed over.
    pub fn is_deleted(&self, doc_id: u64) -> (r: bool)
        ensures
            r == some_deletes(self.segments(), doc_id),
    {
        let n: usize = self.segment_readers.len();
        let mut i: usize = 0;
        while i < n
            invariant
                n == self.segment_readers@.len(),
                i <= n,
                forall|j: int| 0 <= j < i ==> !deletes(#[trigger] self.segment_readers@[j], doc_id),
            decreases n - i,
        {
            if let Ok(true) = self.segment_readers[i].is_deleted(doc_id) {
                assert(deletes(self.segments()[i as int], doc_id));
                return true;
            }
            assert(!deletes(self.segment_readers@[i as int], doc_id));
            i = i + 1;
        }
        false
    }

    /// A document: that of the first segment that has it. A segment that cannot be
    /// read is passed over.
    pub fn document(&self, doc_id: u64) -> (r: Result<Option<Document>, LaurusError>)
        requires
            self.wf(),
        ensures
            if self.has_closed() {
                r == Err::<Option<Document>, LaurusError>(LaurusError::ReaderClosed)
            } else {
                match first_of(
                    self.segments().map_values(|s: SegmentReader| document_in(s, doc_id)),
                ) {
                    None => r == Ok::<Option<Document>, LaurusError>(None),
                    Some(d) => r is Ok && r->Ok_0 is Some && r->Ok_0->Some_0@ == d
                        && r->Ok_0->Some_0.wf(),
                }
            },
    {
        match self.check_closed() {
            Ok(_) => {},
            Err(e) => return Err(e),
        }
        let ghost answers = self.segments().map_values(|s: SegmentReader| document_in(s, doc_id));
        let n: usize = self.segment_readers.len();
        let mut i: usize = 0;
        while i < n
            invariant
                self.wf(),
                n == self.segment_readers@.len(),
                i <= n,
                !self.has_closed(),
                answers == self.segments().map_values(
                    |s: SegmentReader| document_in(s, doc_id),
                ),
                forall|j: int| 0 <= j < i ==> (#[trigger] answers[j]) is None,
            decreases n - i,
        {
            assert(self.segment_readers@[i as int].wf());
            assert(answers[i as int] == document_in(self.segment_readers@[i as int], doc_id));
            if let Ok(Some(doc)) = self.segment_readers[i].document(doc_id) {
                proof {
                    lemma_first_of(answers, i as int);
                }
                return Ok(Some(doc));
            }
            i = i + 1;
        }
        proof {
            lemma_first_of(answers, n as int);
        }
        Ok(None)
    }

    /// The fields of a document that are asked for, from the first segment that has the
    /// document. A segment that cannot be read is passed over.
    pub fn document_fields(&self, doc_id: u64, field_names: &[&str]) -> (r: Result<
        Option<FieldMap<DataValue>>,
        LaurusError,
    >)
        requires
            self.wf(),
        ensures
            if self.has_closed() {
                r is Err && r->Err_0 == LaurusError::ReaderClosed
            } else {
                match first_of(
                    self.segments().map_values(|s: SegmentReader| document_in(s, doc_id)),
                ) {
                    None => r is Ok && r->Ok_0 is None,
                    Some(d) => r is Ok && r->Ok_0 is Some && r->Ok_0->Some_0.wf() && forall|
                        name: Seq<char>,
                    | #[trigger]
                        segment_reader::holds_asked(d, field_names@, r->Ok_0->Some_0@, name),
                }
            },
    {
        match self.check_closed() {
            Ok(_) => {},
            Err(e) => return Err(e),
        }
        let ghost answers = self.segments().map_values(|s: SegmentReader| document_in(s, doc_id));
        let n: usize = self.segment_readers.len();
        let mut i: usize = 0;
        while i < n
            invariant
                self.wf(),
                n == self.segment_readers@.len(),
                i <= n,
                !self.has_closed(),
                answers == self.segments().map_values(
                    |s: SegmentReader| document_in(s, doc_id),
                ),
                forall|j: int| 0 <= j < i ==> (#[trigger] answers[j]) is None,
            decreases n - i,
        {
            assert(self.segment_readers@[i as int].wf());
            assert(answers[i as int] == document_in(self.segment_readers@[i as int], doc_id));
            if let Ok(Some(fields)) = self.segment_readers[i].document_fields(doc_id, field_names) {
                proof {
                    lemma_first_of(answers, i as int);
                }
                return Ok(Some(fields));
            }
            i = i + 1;
        }
        proof {
            lemma_first_of(answers, n as int);
        }
        Ok(None)
    }

    /// The documents of all segments, those of each segment in ascending order. The
    /// first segment that cannot be read fails.
    pub fn doc_ids(&self) -> (r: Result<Vec<u64>, LaurusError>)
        ensures
            if self.has_closed() {
                r == Err::<Vec<u64>, LaurusError>(LaurusError::ReaderClosed)
            } else {
                match all_ids(self.segments(), self.segments().len() as int) {
                    Ok(ids) => r is Ok && r->Ok_0@ == ids,
                    Err(e) => r == Err::<Vec<u64>, LaurusError>(e),
                }
            },
    {
        match self.check_closed() {
            Ok(_) => {},
            Err(e) => return Err(e),
        }
        let n: usize = self.segment_readers.len();
        let mut all: Vec<u64> = Vec::new();
        let mut i: usize = 0;
        while i < n
            invariant
                n == self.segment_readers@.len(),
                i <= n,
                !self.has_closed(),
                all_ids(self.segments(), i as int) == Ok::<Seq<u64>, LaurusError>(all@),
            decreases n - i,
        {
            let ghost before = all@;
            match self.segment_readers[i].doc_ids() {
                Ok(mut ids) => {
                    let ghost part = ids@;
                    all.append(&mut ids);
                    proof {
                        assert(all@ =~= before + part);
                        sort::lemma_in_order(part);
                    }
                },
                Err(e) => {
                    proof {
                        lemma_all_ids_fail(self.segments(), i + 1, n as int);
                    }
                    return Err(e);
                },
            }
            i = i + 1;
        }
        Ok(all)
    }
}

/// The length of a field of a document in a segment whose range has the document.
pub open spec fn length_in(s: SegmentReader, doc_id: u64, field: Seq<char>) -> Option<u32> {
    if s.about().min_doc_id <= doc_id <= s.about().max_doc_id {
        match s.gone() {
            Err(_) => None,
            Ok(g) => if g.contains(doc_id) {
                None
            } else {
                match s.measures() {
                    Err(_) => None,
                    Ok(n) => n.length_of(doc_id, field),
                }
            },
        }
    } else {
        None
    }
}

/// Whether a segment has a document deleted.
pub open spec fn deletes(s: SegmentReader, doc_id: u64) -> bool {
    s.gone() is Ok && s.gone()->Ok_0.contains(doc_id)
}

/// Whether some segment has a document deleted.
pub open spec fn some_deletes(readers: Seq<SegmentReader>, doc_id: u64) -> bool {
    exists|i: int| 0 <= i < readers.len() && deletes(#[trigger] readers[i], doc_id)
}

/// A document in a segment that can be read.
pub open spec fn document_in(s: SegmentReader, doc_id: u64) -> Option<FieldsView> {
    match s.live_document(doc_id) {
        Ok(d) => d,
        Err(_) => None,
    }
}

/// The documents of the first `n` segments, one segment behind another and those of
/// each in ascending order, or the first reason why they cannot be had.
pub open spec fn all_ids(readers: Seq<SegmentReader>, n: int) -> Result<Seq<u64>, LaurusError>
    decreases n,
{
    if n <= 0 {
        Ok(Seq::empty())
    } else {
        match all_ids(readers, n - 1) {
            Err(e) => Err(e),
            Ok(ids) => match readers[n - 1].documents() {
                Err(e) => Err(e),
                Ok(m) => Ok(ids + sort::in_order(m.dom())),
            },
        }
    }
}

proof fn lemma_all_ids_fail(readers: Seq<SegmentReader>, k: int, n: int)
    requires
        0 <= k <= n,
        all_ids(readers, k) is Err,
    ensures
        all_ids(readers, n) == all_ids(readers, k),
    decreases n,
{
    if k < n {
        lemma_all_ids_fail(readers, k, n - 1);
    }
}

// ---------------------------------------------------------------------------
// Statistics
// ---------------------------------------------------------------------------

/// The statistics of a field in a segment.
pub open spec fn stats_in(s: SegmentReader, field: Seq<char>) -> Result<
    Option<StatsView>,
    LaurusError,
> {
    match s.measures() {
        Err(e) => Err(e),
        Ok(n) => Ok(names::value_of(n.all_stats(), field)),
    }
}

/// The statistics of a field in those of the first `n` segments that have them, or the
/// first reason why they cannot be had.
pub open spec fn stats_found(readers: Seq<SegmentReader>, field: Seq<char>, n: int) -> Result<
    Seq<StatsView>,
    LaurusError,
>
    decreases n,
{
    if n <= 0 {
        Ok(Seq::empty())
    } else {
        match stats_found(readers, field, n - 1) {
            Err(e) => Err(e),
            Ok(s) => match stats_in(readers[n - 1], field) {
                Err(e) => Err(e),
                Ok(Some(v)) => Ok(s.push(v)),
                Ok(None) => Ok(s),
            },
        }
    }
}

proof fn lemma_stats_fail(readers: Seq<SegmentReader>, field: Seq<char>, k: int, n: int)
    requires
        0 <= k <= n,
        stats_found(readers, field, k) is Err,
    ensures
        stats_found(readers, field, n) == stats_found(readers, field, k),
    decreases n,
{
    if k < n {
        lemma_stats_fail(readers, field, k, n - 1);
    }
}

/// How many documents statistics are of.
pub open spec fn counted(s: Seq<StatsView>) -> nat
    decreases s.len(),
{
    if s.len() == 0 {
        0
    } else {
        counted(s.drop_last()) + s.last().doc_count as nat
    }
}

/// The least length of statistics.
pub open spec fn least_length(s: Seq<StatsView>) -> u64
    decreases s.len(),
{
    if s.len() == 0 {
        u64::MAX
    } else {
        let before = least_length(s.drop_last());
        if s.last().min_length < before {
            s.last().min_length
        } else {
            before
        }
    }
}

/// The greatest length of statistics.
pub open spec fn greatest_length(s: Seq<StatsView>) -> u64
    decreases s.len(),
{
    if s.len() == 0 {
        0
    } else {
        let before = greatest_length(s.drop_last());
        if s.last().max_length > before {
            s.last().max_length
        } else {
            before
        }
    }
}

/// Averages with how many documents they are of.
pub open spec fn weighted(s: Seq<StatsView>) -> Seq<(u64, u64)> {
    s.map_values(|v: StatsView| (v.avg_length, v.doc_count))
}

/// Whether `mean` may give this average of averages.
pub open spec fn gives_mean<M: Fn(&Vec<(u64, u64)>) -> u64>(
    mean: M,
    parts: Seq<(u64, u64)>,
    bits: u64,
) -> bool {
    exists|v: &Vec<(u64, u64)>| v@ == parts && #[trigger] call_ensures(mean, (v,), bits)
}

/// Whether these are the statistics of a field over all segments.
pub open spec fn is_combined<M: Fn(&Vec<(u64, u64)>) -> u64>(
    mean: M,
    field: Seq<char>,
    parts: Seq<StatsView>,
    r: Option<StatsView>,
) -> bool {
    if parts.len() == 0 {
        r is None
    } else {
        &&& r is Some
        &&& r->Some_0.field == field
        &&& r->Some_0.unique_terms == 0
        &&& r->Some_0.total_terms == 0
        &&& r->Some_0.doc_count == counted(parts)
        &&& if counted(parts) > 0 {
            gives_mean(mean, weighted(parts), r->Some_0.avg_length)
        } else {
            r->Some_0.avg_length == 0
        }
        &&& r->Some_0.min_length == if least_length(parts) == u64::MAX {
            0
        } else {
            least_length(parts)
        }
        &&& r->Some_0.max_length == greatest_length(parts)
    }
}

/// What statistics hold, where there are any.
pub open spec fn shown_stats(s: Option<FieldStats>) -> Option<StatsView> {
    match s {
        Some(s) => Some(s@),
        None => None,
    }
}

/// How a request for the statistics of a field is answered.
pub open spec fn stats_answered<M: Fn(&Vec<(u64, u64)>) -> u64>(
    mean: M,
    reader: InvertedIndexReader,
    field: Seq<char>,
    r: Result<Option<FieldStats>, LaurusError>,
) -> bool {
    if reader.has_closed() {
        r == Err::<Option<FieldStats>, LaurusError>(LaurusError::ReaderClosed)
    } else {
        match stats_found(reader.segments(), field, reader.segments().len() as int) {
            Err(e) => r == Err::<Option<FieldStats>, LaurusError>(e),
            Ok(parts) => r is Ok && is_combined(mean, field, parts, shown_stats(r->Ok_0)),
        }
    }
}

/// Whether the documents that the statistics of a field are of can be counted.
pub open spec fn stats_fit(readers: Seq<SegmentReader>, field: Seq<char>) -> bool {
    match stats_found(readers, field, readers.len() as int) {
        Ok(parts) => counted(parts) <= u64::MAX,
        Err(_) => true,
    }
}

proof fn lemma_counted_grows(
    readers: Seq<SegmentReader>,
    field: Seq<char>,
    k: int,
    n: int,
)
    requires
        0 <= k <= n,
        stats_found(readers, field, n) is Ok,
    ensures
        stats_found(readers, field, k) is Ok,
        counted(stats_found(readers, field, k)->Ok_0) <= counted(
            stats_found(readers, field, n)->Ok_0,
        ),
    decreases n,
{
    if k < n {
        assert(stats_found(readers, field, n - 1) is Ok);
        lemma_counted_grows(readers, field, k, n - 1);
        let before = stats_found(readers, field, n - 1)->Ok_0;
        if let Ok(Some(v)) = stats_in(readers[n - 1], field) {
            assert(before.push(v).drop_last() =~= before);
        }
    }
}

impl InvertedIndexReader {
    /// The statistics of a field over all segments that have them. `mean` gives the
    /// average of averages, each weighted by how many documents it is of.
    pub fn field_stats<M: Fn(&Vec<(u64, u64)>) -> u64>(&self, field: &str, mean: &M) -> (r: Result<
        Option<FieldStats>,
        LaurusError,
    >)
        requires
            stats_fit(self.segments(), field@),
            forall|v: &Vec<(u64, u64)>| call_requires(*mean, (v,)),
        ensures
            stats_answered(*mean, *self, field@, r),
    {
        match self.check_closed() {
            Ok(_) => {},
            Err(e) => return Err(e),
        }
        let n: usize = self.segment_readers.len();
        let ghost readers = self.segments();
        let ghost mut parts: Seq<StatsView> = Seq::empty();
        let mut averages: Vec<(u64, u64)> = Vec::new();
        let mut doc_count: u128 = 0;
        let mut min_length: u64 = u64::MAX;
        let mut max_length: u64 = 0;
        let mut i: usize = 0;
        assert(averages@ =~= weighted(parts));
        while i < n
            invariant
                readers == self.segments(),
                n == self.segment_readers@.len(),
                i <= n,
                !self.has_closed(),
                stats_found(readers, field@, i as int) == Ok::<Seq<StatsView>, LaurusError>(parts),
                averages@ == weighted(parts),
                parts.len() <= i,
                doc_count == counted(parts),
                doc_count <= i * u64::MAX,
                min_length == least_length(parts),
                max_length == greatest_length(parts),
            decreases n - i,
        {
            match self.segment_readers[i].field_stats(field) {
                Err(e) => {
                    proof {
                        lemma_stats_fail(readers, field@, i + 1, n as int);
                    }
                    return Err(e);
                },
                Ok(None) => {},
                Ok(Some(stats)) => {
                    proof {
                        let more = parts.push(stats@);
                        assert(more.drop_last() =~= parts);
                        assert(weighted(more) =~= weighted(parts).push(
                            (stats.avg_length, stats.doc_count),
                        ));
                        parts = more;
                        assert(i * u64::MAX + u64::MAX == (i + 1) * u64::MAX) by (nonlinear_arith);
                        assert(i * u64::MAX + u64::MAX <= u128::MAX) by (nonlinear_arith)
                            requires
                                i < usize::MAX,
                        ;
                    }
                    doc_count = doc_count + stats.doc_count as u128;
                    averages.push((stats.avg_length, stats.doc_count));
                    if stats.min_length < min_length {
                        min_length = stats.min_length;
                    }
                    if stats.max_length > max_length {
                        max_length = stats.max_length;
                    }
                },
            }
            assert(i * u64::MAX <= (i + 1) * u64::MAX) by (nonlinear_arith);
            i = i + 1;
        }
        if averages.len() == 0 {
            assert(parts.len() == weighted(parts).len());
            return Ok(None);
        }
        let avg_length: u64 = if doc_count > 0 {
            let bits: u64 = (*mean)(&averages);
            assert(gives_mean(*mean, weighted(parts), bits));
            bits
        } else {
            0
        };
        assert(parts.len() == weighted(parts).len());
        Ok(
            Some(
                FieldStats {
                    field: field.to_string(),
                    unique_terms: 0,
                    total_terms: 0,
                    doc_count: doc_count as u64,
                    avg_length,
                    min_length: if min_length == u64::MAX {
                        0
                    } else {
                        min_length
                    },
                    max_length,
                },
            ),
        )
    }
}

// ---------------------------------------------------------------------------
// Terms
// ---------------------------------------------------------------------------

/// What a reader says of a term. The factor is a 32-bit pattern.
#[derive(Debug, PartialEq, Eq)]
pub struct ReaderTermInfo {
    pub field: String,
    pub term: String,
    pub doc_freq: u64,
    pub total_freq: u64,
    pub posting_offset: u64,
    pub posting_size: u64,
    pub max_score_factor: u32,
    pub block_max: Vec<BlockMax>,
}

/// What the segments say of a term together.
#[verifier::ext_equal]
pub struct Gathered {
    /// How many segments have the term.
    pub matched: nat,
    pub doc_freq: nat,
    pub total_freq: nat,
    /// The greatest factor.
    pub factor: u32,
    /// The blocks of all segments, one segment behind another.
    pub blocks: Seq<BlockMax>,
    /// The least average length of the field in a segment that has the term.
    pub least_avg: Option<u64>,
}

/// No segment.
pub open spec fn nothing_gathered() -> Gathered {
    Gathered {
        matched: 0,
        doc_freq: 0,
        total_freq: 0,
        factor: 0,
        blocks: Seq::empty(),
        least_avg: None,
    }
}

/// What is gathered after one more segment that has the term.
pub open spec fn gathered_with(g: Gathered, info: TermInfoView, stats: Option<StatsView>) -> Gathered {
    Gathered {
        matched: g.matched + 1,
        doc_freq: g.doc_freq + info.doc_frequency as nat,
        total_freq: g.total_freq + info.total_frequency as nat,
        factor: floats::larger_32(g.factor, info.max_score_factor),
        blocks: g.blocks + info.block_max,
        least_avg: match stats {
            None => g.least_avg,
            Some(s) => match g.least_avg {
                None => Some(s.avg_length),
                Some(m) => Some(floats::smaller(m, s.avg_length)),
            },
        },
    }
}

/// What the first `n` segments say of a term together, or the first reason why that
/// cannot be had.
pub open spec fn gathered(
    readers: Seq<SegmentReader>,
    field: Seq<char>,
    term: Seq<char>,
    n: int,
) -> Result<Gathered, LaurusError>
    decreases n,
{
    if n <= 0 {
        Ok(nothing_gathered())
    } else {
        match gathered(readers, field, term, n - 1) {
            Err(e) => Err(e),
            Ok(g) => match readers[n - 1].entry(field, term) {
                Err(e) => Err(e),
                Ok(None) => Ok(g),
                Ok(Some(info)) => match stats_in(readers[n - 1], field) {
                    Err(e) => Err(e),
                    Ok(stats) => Ok(gathered_with(g, info, stats)),
                },
            },
        }
    }
}

proof fn lemma_gathered_fails(
    readers: Seq<SegmentReader>,
    field: Seq<char>,
    term: Seq<char>,
    k: int,
    n: int,
)
    requires
        0 <= k <= n,
        gathered(readers, field, term, k) is Err,
    ensures
        gathered(readers, field, term, n) == gathered(readers, field, term, k),
    decreases n,
{
    if k < n {
        lemma_gathered_fails(readers, field, term, k, n - 1);
    }
}

/// Whether the frequencies of a term can be counted.
pub open spec fn terms_fit(readers: Seq<SegmentReader>, field: Seq<char>, term: Seq<char>) -> bool {
    match gathered(readers, field, term, readers.len() as int) {
        Ok(g) => g.doc_freq <= u64::MAX && g.total_freq <= u64::MAX,
        Err(_) => true,
    }
}

/// Whether the factors of the segments bound a score that is taken over all of them:
/// only where the average length over all segments is at most the least average length
/// of a segment that has the term, both taken as 32-bit numbers.
pub open spec fn bounds_hold<F: Fn(Number) -> Forms>(
    forms: F,
    least_avg: Option<u64>,
    global: Option<StatsView>,
    holds: bool,
) -> bool {
    match (least_avg, global) {
        (Some(least), Some(stats)) => exists|a: u32, b: u32|
            {
                &&& #[trigger] numbers::gives_narrow(forms, Number::Float { bits: stats.avg_length }, a)
                &&& #[trigger] numbers::gives_narrow(forms, Number::Float { bits: least }, b)
                &&& holds == floats::at_most_32(a, b)
            },
        _ => !holds,
    }
}

/// What is said of a term that segments have: where the bounds do not hold there is no
/// factor, and blocks are given only of a single segment.
pub open spec fn aggregated(g: Gathered, holds: bool) -> TermInfoView {
    TermInfoView {
        posting_offset: 0,
        posting_length: 0,
        doc_frequency: g.doc_freq as u64,
        total_frequency: g.total_freq as u64,
        max_score_factor: if holds {
            g.factor
        } else {
            0
        },
        block_max: if holds && g.matched == 1 {
            g.blocks
        } else {
            Seq::empty()
        },
    }
}

/// Whether an answer says this of a term.
pub open spec fn says(
    r: Result<Option<ReaderTermInfo>, LaurusError>,
    field: Seq<char>,
    term: Seq<char>,
    info: TermInfoView,
) -> bool {
    &&& r is Ok
    &&& r->Ok_0 is Some
    &&& r->Ok_0->Some_0.field@ == field
    &&& r->Ok_0->Some_0.term@ == term
    &&& r->Ok_0->Some_0.doc_freq == info.doc_frequency
    &&& r->Ok_0->Some_0.total_freq == info.total_frequency
    &&& r->Ok_0->Some_0.posting_offset == info.posting_offset
    &&& r->Ok_0->Some_0.posting_size == info.posting_length
    &&& r->Ok_0->Some_0.max_score_factor == info.max_score_factor
    &&& r->Ok_0->Some_0.block_max@ == info.block_max
}

/// The statistics of a field, and whether they say that the bounds hold.
pub open spec fn bounds_checked<
    F: Fn(Number) -> Forms,
    M: Fn(&Vec<(u64, u64)>) -> u64,
>(
    forms: F,
    mean: M,
    field: Seq<char>,
    least_avg: Option<u64>,
    parts: Seq<StatsView>,
    global: Option<StatsView>,
    holds: bool,
) -> bool {
    is_combined(mean, field, parts, global) && bounds_hold(forms, least_avg, global, holds)
}

/// How a term that is not in the cache is answered, and what the cache then holds.
pub open spec fn term_answered<
    F: Fn(Number) -> Forms,
    M: Fn(&Vec<(u64, u64)>) -> u64,
>(
    forms: F,
    mean: M,
    readers: Seq<SegmentReader>,
    field: Seq<char>,
    term: Seq<char>,
    before: CacheManager,
    after: CacheManager,
    r: Result<Option<ReaderTermInfo>, LaurusError>,
) -> bool {
    match gathered(readers, field, term, readers.len() as int) {
        Err(e) => r == Err::<Option<ReaderTermInfo>, LaurusError>(e) && after.entries()
            == before.entries(),
        Ok(g) => if g.matched == 0 {
            r == Ok::<Option<ReaderTermInfo>, LaurusError>(None) && after.entries()
                == before.entries()
        } else if g.least_avg is None {
            says(r, field, term, aggregated(g, false)) && is_kept(
                before,
                after,
                dictionary::full_term(field, term),
                aggregated(g, false),
            )
        } else {
            match stats_found(readers, field, readers.len() as int) {
                Err(e) => r == Err::<Option<ReaderTermInfo>, LaurusError>(e) && after.entries()
                    == before.entries(),
                Ok(parts) => exists|global: Option<StatsView>, holds: bool| #[trigger]
                    bounds_checked(forms, mean, field, g.least_avg, parts, global, holds) && says(
                        r,
                        field,
                        term,
                        aggregated(g, holds),
                    ) && is_kept(
                        before,
                        after,
                        dictionary::full_term(field, term),
                        aggregated(g, holds),
                    ),
            }
        },
    }
}

/// Whether the cache was given this entry.
pub open spec fn is_kept(
    before: CacheManager,
    after: CacheManager,
    key: Seq<char>,
    info: TermInfoView,
) -> bool {
    exists|v: TermInfo| #[trigger] term_cache::put_in_front(
        before.entries(),
        key,
        v,
        before.capacity() as nat,
    ) == after.entries() && v@ == info
}

/// A term that was found is answered in the same way again: what is then in the cache says
/// what was answered.
pub proof fn lemma_answered_again<F: Fn(Number) -> Forms, M: Fn(&Vec<(u64, u64)>) -> u64>(
    forms: F,
    mean: M,
    readers: Seq<SegmentReader>,
    field: Seq<char>,
    term: Seq<char>,
    before: CacheManager,
    after: CacheManager,
    r: Result<Option<ReaderTermInfo>, LaurusError>,
)
    requires
        before.wf(),
        term_answered(forms, mean, readers, field, term, before, after, r),
        r is Ok,
        r->Ok_0 is Some,
    ensures
        match names::value_of(after.entries(), dictionary::full_term(field, term)) {
            Some(info) => says(r, field, term, info@),
            None => false,
        },
{
    let key = dictionary::full_term(field, term);
    let g = gathered(readers, field, term, readers.len() as int)->Ok_0;
    let info = if g.least_avg is None {
        aggregated(g, false)
    } else {
        let parts = stats_found(readers, field, readers.len() as int)->Ok_0;
        let (global, holds) = choose|global: Option<StatsView>, holds: bool| #[trigger]
            bounds_checked(forms, mean, field, g.least_avg, parts, global, holds) && says(
                r,
                field,
                term,
                aggregated(g, holds),
            ) && is_kept(before, after, key, aggregated(g, holds));
        aggregated(g, holds)
    };
    assert(is_kept(before, after, key, info));
    let v = choose|v: TermInfo| #[trigger]
        term_cache::put_in_front(before.entries(), key, v, before.capacity() as nat)
            == after.entries() && v@ == info;
    term_cache::lemma_kept_is_found(before, after, key, v);
}

/// What segments say of a term together, while it is gathered.
struct Gathering {
    matched: usize,
    doc_freq: u128,
    total_freq: u128,
    factor: u32,
    blocks: Vec<BlockMax>,
    least_avg: Option<u64>,
}

impl Gathering {
    spec fn so_far(&self) -> Gathered {
        Gathered {
            matched: self.matched as nat,
            doc_freq: self.doc_freq as nat,
            total_freq: self.total_freq as nat,
            factor: self.factor,
            blocks: self.blocks@,
            least_avg: self.least_avg,
        }
    }
}

impl InvertedIndexReader {
    fn gather(&self, field: &str, term: &str) -> (r: Result<Gathering, LaurusError>)
        requires
            self.wf(),
        ensures
            match gathered(self.segments(), field@, term@, self.segments().len() as int) {
                Err(e) => r is Err && r->Err_0 == e,
                Ok(g) => r is Ok && r->Ok_0.so_far() == g,
            },
    {
        let ghost readers = self.segments();
        let n: usize = self.segment_readers.len();
        let mut g = Gathering {
            matched: 0,
            doc_freq: 0,
            total_freq: 0,
            factor: 0,
            blocks: Vec::new(),
            least_avg: None,
        };
        let mut i: usize = 0;
        assert(g.so_far() =~= nothing_gathered());
        while i < n
            invariant
                self.wf(),
                readers == self.segments(),
                n == self.segment_readers@.len(),
                i <= n,
                g.matched <= i,
                g.doc_freq <= i * u64::MAX,
                g.total_freq <= i * u64::MAX,
                gathered(readers, field@, term@, i as int) == Ok::<Gathered, LaurusError>(g.so_far()),
            decreases n - i,
        {
            assert(self.segment_readers@[i as int].wf());
            let ghost before = g.so_far();
            let reader: &SegmentReader = &self.segment_readers[i];
            proof {
                assert(i * u64::MAX + u64::MAX == (i + 1) * u64::MAX) by (nonlinear_arith);
                assert(i * u64::MAX + u64::MAX <= u128::MAX) by (nonlinear_arith)
                    requires
                        i < usize::MAX,
                ;
            }
            match reader.term_info(field, term) {
                Err(e) => {
                    proof {
                        lemma_gathered_fails(readers, field@, term@, i + 1, n as int);
                    }
                    return Err(e);
                },
                Ok(None) => {},
                Ok(Some(info)) => {
                    let stats: Option<FieldStats> = match reader.field_stats(field) {
                        Err(e) => {
                            proof {
                                lemma_gathered_fails(readers, field@, term@, i + 1, n as int);
                            }
                            return Err(e);
                        },
                        Ok(stats) => stats,
                    };
                    g.matched = g.matched + 1;
                    g.doc_freq = g.doc_freq + info.doc_frequency as u128;
                    g.total_freq = g.total_freq + info.total_frequency as u128;
                    g.factor = floats::larger_of_32(g.factor, info.max_score_factor);
                    let ghost info_view = info@;
                    let mut blocks: Vec<BlockMax> = info.block_max;
                    g.blocks.append(&mut blocks);
                    if let Some(s) = &stats {
                        g.least_avg = match g.least_avg {
                            None => Some(s.avg_length),
                            Some(m) => Some(floats::smaller_of(m, s.avg_length)),
                        };
                    }
                    proof {
                        let stats_view = shown_stats(stats);
                        assert(stats_in(readers[i as int], field@) == Ok::<
                            Option<StatsView>,
                            LaurusError,
                        >(stats_view));
                        assert(g.so_far() =~= gathered_with(before, info_view, stats_view));
                    }
                },
            }
            i = i + 1;
        }
        Ok(g)
    }

    /// What is said of a term over all segments: how often it occurs, and factors that
    /// bound its part in a score, as far as they hold. An answer is kept in the cache.
    #[verifier::rlimit(40)]
    pub fn term_info<F: Fn(Number) -> Forms, M: Fn(&Vec<(u64, u64)>) -> u64>(
        &mut self,
        field: &str,
        term: &str,
        forms: &F,
        mean: &M,
    ) -> (r: Result<Option<ReaderTermInfo>, LaurusError>)
        requires
            old(self).wf(),
            stats_fit(old(self).segments(), field@),
            terms_fit(old(self).segments(), field@, term@),
            forall|n: Number| call_requires(*forms, (n,)),
            forall|v: &Vec<(u64, u64)>| call_requires(*mean, (v,)),
        ensures
            final(self).wf(),
            final(self).segments() == old(self).segments(),
            final(self).settings() == old(self).settings(),
            final(self).has_closed() == old(self).has_closed(),
            final(self).cache().limit() == old(self).cache().limit(),
            if old(self).has_closed() {
                r == Err::<Option<ReaderTermInfo>, LaurusError>(LaurusError::ReaderClosed)
                    && final(self).cache() == old(self).cache()
            } else {
                match names::value_of(
                    old(self).cache().entries(),
                    dictionary::full_term(field@, term@),
                ) {
                    Some(info) => says(r, field@, term@, info@) && final(self).cache().entries()
                        == term_cache::touched(
                        old(self).cache().entries(),
                        dictionary::full_term(field@, term@),
                    ) && final(self).cache().hits() == old(self).cache().hits().wrapping_add(1)
                        && final(self).cache().misses() == old(self).cache().misses(),
                    None => final(self).cache().misses() == old(
                        self,
                    ).cache().misses().wrapping_add(1) && final(self).cache().hits() == old(
                        self,
                    ).cache().hits() && term_answered(
                        *forms,
                        *mean,
                        old(self).segments(),
                        field@,
                        term@,
                        old(self).cache(),
                        final(self).cache(),
                        r,
                    ),
                }
            },
    {
        match self.check_closed() {
            Ok(_) => {},
            Err(e) => return Err(e),
        }
        let ghost readers = self.segments();
        let ghost before = self.cache();
        let key: String = dictionary::full_term_of(field, term);
        let cached: Option<std::sync::Arc<TermInfo>> = self.cache_manager.get_term_info(
            key.as_str(),
        );
        if let Some(info) = cached {
            return Ok(
                Some(
                    ReaderTermInfo {
                        field: field.to_string(),
                        term: term.to_string(),
                        doc_freq: info.doc_frequency,
                        total_freq: info.total_frequency,
                        posting_offset: info.posting_offset,
                        posting_size: info.posting_length,
                        max_score_factor: info.max_score_factor,
                        block_max: data::copy_vec(&info.block_max),
                    },
                ),
            );
        }
        assert(self.cache().entries() == before.entries());
        let g: Gathering = match self.gather(field, term) {
            Err(e) => return Err(e),
            Ok(g) => g,
        };
        if g.matched == 0 {
            return Ok(None);
        }
        let mut holds: bool = false;
        if let Some(least) = g.least_avg {
            let global: Option<FieldStats> = match self.field_stats(field, mean) {
                Err(e) => return Err(e),
                Ok(global) => global,
            };
            let ghost global_view: Option<StatsView> = shown_stats(global);
            if let Some(stats) = &global {
                let a: Forms = (*forms)(Number::Float { bits: stats.avg_length });
                assert(numbers::gives(*forms, Number::Float { bits: stats.avg_length }, a));
                let b: Forms = (*forms)(Number::Float { bits: least });
                assert(numbers::gives(*forms, Number::Float { bits: least }, b));
                holds = floats::is_at_most_32(a.narrow, b.narrow);
                proof {
                    assert(numbers::gives_narrow(
                        *forms,
                        Number::Float { bits: stats.avg_length },
                        a.narrow,
                    ));
                    assert(numbers::gives_narrow(*forms, Number::Float { bits: least }, b.narrow));
                    assert(bounds_hold(*forms, g.least_avg, global_view, holds));
                }
            }
            proof {
                let parts = stats_found(readers, field@, readers.len() as int)->Ok_0;
                assert(bounds_checked(
                    *forms,
                    *mean,
                    field@,
                    g.least_avg,
                    parts,
                    global_view,
                    holds,
                ));
            }
        }
        let factor: u32 = if holds {
            g.factor
        } else {
            0
        };
        let blocks: Vec<BlockMax> = if holds && g.matched == 1 {
            g.blocks
        } else {
            Vec::new()
        };
        let info = TermInfo {
            posting_offset: 0,
            posting_length: 0,
            doc_frequency: g.doc_freq as u64,
            total_frequency: g.total_freq as u64,
            max_score_factor: factor,
            block_max: data::copy_vec(&blocks),
        };
        let answer = ReaderTermInfo {
            field: field.to_string(),
            term: term.to_string(),
            doc_freq: g.doc_freq as u64,
            total_freq: g.total_freq as u64,
            posting_offset: 0,
            posting_size: 0,
            max_score_factor: factor,
            block_max: blocks,
        };
        proof {
            let all = gathered(readers, field@, term@, readers.len() as int)->Ok_0;
            assert(info@ =~= aggregated(all, holds));
        }
        let ghost kept = info;
        let ghost name = key@;
        self.cache_manager.cache_term_info(key, info);
        proof {
            assert(term_cache::put_in_front(
                before.entries(),
                name,
                kept,
                before.capacity() as nat,
            ) == self.cache().entries());
            let all = gathered(readers, field@, term@, readers.len() as int)->Ok_0;
            assert(is_kept(
                before,
                self.cache(),
                dictionary::full_term(field@, term@),
                aggregated(all, holds),
            ));
        }
        Ok(Some(answer))
    }
}

// ---------------------------------------------------------------------------
// Postings
// ---------------------------------------------------------------------------

/// The postings of a term over all segments: of one segment, or of several, merged.
pub enum PostingStream {
    One(InvertedIndexPostingIterator),
    Merged(MergedPostingIterator<InvertedIndexPostingIterator>),
}

impl PostingIterator for PostingStream {
    closed spec fn wf(&self) -> bool {
        match *self {
            PostingStream::One(it) => it.wf(),
            PostingStream::Merged(it) => it.wf(),
        }
    }

    closed spec fn begun(&self) -> bool {
        match *self {
            PostingStream::One(it) => it.begun(),
            PostingStream::Merged(it) => it.begun(),
        }
    }

    closed spec fn ahead(&self) -> Seq<PostingView> {
        match *self {
            PostingStream::One(it) => it.ahead(),
            PostingStream::Merged(it) => it.ahead(),
        }
    }

    closed spec fn costs(&self) -> Seq<nat> {
        match *self {
            PostingStream::One(it) => it.costs(),
            PostingStream::Merged(it) => it.costs(),
        }
    }

    closed spec fn may_fail(&self, e: LaurusError) -> bool {
        match *self {
            PostingStream::One(it) => it.may_fail(e),
            PostingStream::Merged(it) => it.may_fail(e),
        }
    }

    closed spec fn may_go_on(&self) -> bool {
        match *self {
            PostingStream::One(it) => it.may_go_on(),
            PostingStream::Merged(it) => it.may_go_on(),
        }
    }

    proof fn lemma_documents(&self) {
        match self {
            PostingStream::One(it) => it.lemma_documents(),
            PostingStream::Merged(it) => it.lemma_documents(),
        }
    }

    fn doc_id(&self) -> (r: u64) {
        match self {
            PostingStream::One(it) => it.doc_id(),
            PostingStream::Merged(it) => it.doc_id(),
        }
    }

    fn term_freq(&self) -> (r: u64) {
        match self {
            PostingStream::One(it) => it.term_freq(),
            PostingStream::Merged(it) => it.term_freq(),
        }
    }

    fn positions(&self) -> (r: Result<Vec<u64>, LaurusError>) {
        match self {
            PostingStream::One(it) => it.positions(),
            PostingStream::Merged(it) => it.positions(),
        }
    }

    fn next(&mut self) -> (r: Result<bool, LaurusError>) {
        match self {
            PostingStream::One(it) => it.next(),
            PostingStream::Merged(it) => it.next(),
        }
    }

    fn skip_to(&mut self, target: u64) -> (r: Result<bool, LaurusError>) {
        match self {
            PostingStream::One(it) => it.skip_to(target),
            PostingStream::Merged(it) => it.skip_to(target),
        }
    }

    fn cost(&self) -> (r: u64) {
        match self {
            PostingStream::One(it) => it.cost(),
            PostingStream::Merged(it) => it.cost(),
        }
    }
}

/// Whether these are the postings of a term in a segment.
pub open spec fn postings_are<
    D: Fn(&SegmentInfo, u64, PostingFormat) -> Result<DecodedPostingList, LaurusError>,
    N: Fn(&str, &DataValue) -> Result<Vec<AnalyzedTerm>, LaurusError>,
>(
    decode: D,
    analyze: N,
    reader: SegmentReader,
    field: Seq<char>,
    term: Seq<char>,
    out: Option<Seq<PostingView>>,
) -> bool {
    segment_reader::postings_end(decode, analyze, reader, field, term, Ok(out))
}

/// Whether the postings of a term in a segment cannot be had, for this reason.
pub open spec fn postings_fail<
    D: Fn(&SegmentInfo, u64, PostingFormat) -> Result<DecodedPostingList, LaurusError>,
    N: Fn(&str, &DataValue) -> Result<Vec<AnalyzedTerm>, LaurusError>,
>(
    decode: D,
    analyze: N,
    reader: SegmentReader,
    field: Seq<char>,
    term: Seq<char>,
    e: LaurusError,
) -> bool {
    segment_reader::postings_end(decode, analyze, reader, field, term, Err(e))
}

/// Whether what stands beside each segment are its postings of a term.
pub open spec fn postings_each<
    D: Fn(&SegmentInfo, u64, PostingFormat) -> Result<DecodedPostingList, LaurusError>,
    N: Fn(&str, &DataValue) -> Result<Vec<AnalyzedTerm>, LaurusError>,
>(
    decode: D,
    analyze: N,
    readers: Seq<SegmentReader>,
    field: Seq<char>,
    term: Seq<char>,
    outs: Seq<Option<Seq<PostingView>>>,
) -> bool {
    &&& outs.len() <= readers.len()
    &&& forall|i: int|
        0 <= i < outs.len() ==> postings_are(
            decode,
            analyze,
            readers[i],
            field,
            term,
            #[trigger] outs[i],
        )
}

/// What a stream of postings shows, and what the walk over it costs: nothing where no
/// segment has the term, the postings of the only segment that has it, or those of
/// several, merged.
pub open spec fn combined_postings(lists: Seq<Seq<PostingView>>) -> Option<
    (Seq<PostingView>, Seq<nat>),
> {
    if lists.len() == 0 {
        None
    } else if lists.len() == 1 {
        Some((lists[0], posting::even_costs(lists[0].len(), lists[0].len())))
    } else {
        Some(
            (
                posting_iterator::merged(lists),
                posting_iterator::merged_costs(lists, posting_iterator::costs_each(lists)),
            ),
        )
    }
}

/// Whether the postings of a term over all segments are these.
pub open spec fn postings_found<
    D: Fn(&SegmentInfo, u64, PostingFormat) -> Result<DecodedPostingList, LaurusError>,
    N: Fn(&str, &DataValue) -> Result<Vec<AnalyzedTerm>, LaurusError>,
>(
    decode: D,
    analyze: N,
    readers: Seq<SegmentReader>,
    field: Seq<char>,
    term: Seq<char>,
    found: Option<(Seq<PostingView>, Seq<nat>)>,
) -> bool {
    exists|outs: Seq<Option<Seq<PostingView>>>| #[trigger]
        postings_each(decode, analyze, readers, field, term, outs) && outs.len() == readers.len()
            && found == combined_postings(segment_reader::present(outs))
}

/// Whether the postings of a term cannot be had of some segment, for this reason, while
/// those of the segments before it can.
pub open spec fn postings_failed<
    D: Fn(&SegmentInfo, u64, PostingFormat) -> Result<DecodedPostingList, LaurusError>,
    N: Fn(&str, &DataValue) -> Result<Vec<AnalyzedTerm>, LaurusError>,
>(
    decode: D,
    analyze: N,
    readers: Seq<SegmentReader>,
    field: Seq<char>,
    term: Seq<char>,
    e: LaurusError,
) -> bool {
    exists|outs: Seq<Option<Seq<PostingView>>>| #[trigger]
        postings_each(decode, analyze, readers, field, term, outs) && outs.len() < readers.len()
            && postings_fail(decode, analyze, readers[outs.len() as int], field, term, e)
}

/// What each iterator has ahead.
pub open spec fn aheads(its: Seq<InvertedIndexPostingIterator>) -> Seq<Seq<PostingView>> {
    its.map_values(|it: InvertedIndexPostingIterator| it.ahead())
}

proof fn lemma_opened_fresh(its: Seq<InvertedIndexPostingIterator>)
    requires
        forall|i: int|
            0 <= i < its.len() ==> !(#[trigger] its[i]).begun() && its[i].ahead().len() > 0
                && its[i].costs() == posting::even_costs(its[i].ahead().len(), its[i].ahead().len()),
    ensures
        posting_iterator::opened_streams(its) == aheads(its),
        posting_iterator::opened_costs(its) == posting_iterator::costs_each(aheads(its)),
    decreases its.len(),
{
    if its.len() > 0 {
        let front = its.drop_last();
        assert forall|i: int| 0 <= i < front.len() implies !(#[trigger] front[i]).begun()
            && front[i].ahead().len() > 0 && front[i].costs() == posting::even_costs(
            front[i].ahead().len(),
            front[i].ahead().len(),
        ) by {
            assert(front[i] == its[i]);
        }
        lemma_opened_fresh(front);
        assert(!its[its.len() - 1].begun());
        assert(aheads(its) =~= aheads(front).push(its.last().ahead()));
        assert(posting_iterator::costs_each(aheads(its)) =~= posting_iterator::costs_each(
            aheads(front),
        ).push(its.last().costs()));
    } else {
        assert(aheads(its) =~= Seq::empty());
        assert(posting_iterator::costs_each(aheads(its)) =~= Seq::empty());
    }
}

impl InvertedIndexReader {
    /// The postings of a term over all segments, without those of deleted documents.
    #[verifier::rlimit(40)]
    pub fn postings<
        D: Fn(&SegmentInfo, u64, PostingFormat) -> Result<DecodedPostingList, LaurusError>,
        N: Fn(&str, &DataValue) -> Result<Vec<AnalyzedTerm>, LaurusError>,
    >(&self, field: &str, term: &str, decode: &D, analyze: &N) -> (r: Result<
        Option<PostingStream>,
        LaurusError,
    >)
        requires
            self.wf(),
            forall|s: &SegmentInfo, o: u64, f: PostingFormat| call_requires(*decode, (s, o, f)),
            segment_reader::decodes_well(*decode),
            forall|f: &str, v: &DataValue| call_requires(*analyze, (f, v)),
        ensures
            match r {
                Err(e) => if self.has_closed() {
                    e == LaurusError::ReaderClosed
                } else {
                    postings_failed(*decode, *analyze, self.segments(), field@, term@, e)
                },
                Ok(None) => !self.has_closed() && postings_found(
                    *decode,
                    *analyze,
                    self.segments(),
                    field@,
                    term@,
                    None,
                ),
                Ok(Some(it)) => !self.has_closed() && it.wf() && !it.begun() && postings_found(
                    *decode,
                    *analyze,
                    self.segments(),
                    field@,
                    term@,
                    Some((it.ahead(), it.costs())),
                ) && it.costs()[0] == it.ahead().len() && forall|e: LaurusError| !#[trigger] it.may_fail(e),
            },
    {
        match self.check_closed() {
            Ok(_) => {},
            Err(e) => return Err(e),
        }
        let ghost readers = self.segments();
        let ghost mut outs: Seq<Option<Seq<PostingView>>> = Seq::empty();
        let n: usize = self.segment_readers.len();
        let mut iterators: Vec<InvertedIndexPostingIterator> = Vec::new();
        let mut i: usize = 0;
        assert(aheads(iterators@) =~= Seq::empty());
        while i < n
            invariant
                self.wf(),
                !self.has_closed(),
                readers == self.segments(),
                n == self.segment_readers@.len(),
                i <= n,
                forall|s: &SegmentInfo, o: u64, f: PostingFormat| call_requires(*decode, (s, o, f)),
                segment_reader::decodes_well(*decode),
                forall|f: &str, v: &DataValue| call_requires(*analyze, (f, v)),
                outs.len() == i,
                postings_each(*decode, *analyze, readers, field@, term@, outs),
                aheads(iterators@) == segment_reader::present(outs),
                forall|j: int|
                    0 <= j < iterators@.len() ==> (#[trigger] iterators@[j]).wf()
                        && !iterators@[j].begun() && iterators@[j].ahead().len() > 0
                        && iterators@[j].costs() == posting::even_costs(
                        iterators@[j].ahead().len(),
                        iterators@[j].ahead().len(),
                    ),
            decreases n - i,
        {
            assert(self.segment_readers@[i as int].wf());
            let res: Result<Option<InvertedIndexPostingIterator>, LaurusError> =
                self.segment_readers[i].postings(field, term, decode, analyze);
            match res {
                Err(e) => {
                    proof {
                        assert(postings_fail(
                            *decode,
                            *analyze,
                            readers[i as int],
                            field@,
                            term@,
                            e,
                        ));
                        assert(postings_failed(*decode, *analyze, readers, field@, term@, e));
                    }
                    return Err(e);
                },
                Ok(None) => {
                    proof {
                        let out: Option<Seq<PostingView>> = None;
                        assert(postings_are(
                            *decode,
                            *analyze,
                            readers[i as int],
                            field@,
                            term@,
                            out,
                        ));
                        assert(outs.push(out).drop_last() =~= outs);
                        outs = outs.push(out);
                    }
                },
                Ok(Some(it)) => {
                    proof {
                        let out = Some(it.ahead());
                        assert(postings_are(
                            *decode,
                            *analyze,
                            readers[i as int],
                            field@,
                            term@,
                            out,
                        ));
                        assert(it.ahead().len() > 0);
                        assert(outs.push(out).drop_last() =~= outs);
                        outs = outs.push(out);
                        assert(aheads(iterators@.push(it)) =~= aheads(iterators@).push(it.ahead()));
                    }
                    iterators.push(it);
                },
            }
            i = i + 1;
        }
        let count: usize = iterators.len();
        proof {
            let lists = aheads(iterators@);
            assert(lists.len() == count);
            lemma_opened_fresh(iterators@);
            assert forall|i: int| 0 <= i < lists.len() implies (#[trigger] lists[i]).len() > 0 by {
                assert(iterators@[i].ahead().len() > 0);
            }
            posting_iterator::lemma_merged_len(lists);
            posting_iterator::lemma_cost_of_each(lists);
            posting_iterator::lemma_merged_costs(lists, posting_iterator::costs_each(lists));
        }
        if count == 0 {
            assert(postings_found(*decode, *analyze, readers, field@, term@, None));
            return Ok(None);
        }
        if count == 1 {
            if let Some(it) = iterators.pop() {
                proof {
                    assert(segment_reader::present(outs)[0] == it.ahead());
                    assert(postings_found(
                        *decode,
                        *analyze,
                        readers,
                        field@,
                        term@,
                        Some((it.ahead(), it.costs())),
                    ));
                }
                return Ok(Some(PostingStream::One(it)));
            }
        }
        match MergedPostingIterator::new(iterators) {
            Err(e) => Err(e),
            Ok(it) => {
                assert(postings_found(
                    *decode,
                    *analyze,
                    readers,
                    field@,
                    term@,
                    Some((it.ahead(), it.costs())),
                ));
                Ok(Some(PostingStream::Merged(it)))
            },
        }
    }
}

// ---------------------------------------------------------------------------
// Columns, point trees and dictionaries
// ---------------------------------------------------------------------------

/// Whether the column of a field in a segment gives a document this value, or none.
pub open spec fn value_in<C: Fn(&[u8]) -> Result<Vec<(u64, DataValue)>, LaurusError>>(
    decode: C,
    s: SegmentReader,
    field: Seq<char>,
    doc_id: u64,
    r: Result<Option<DataValue>, LaurusError>,
) -> bool {
    match s.gone() {
        Err(e) => r == Err::<Option<DataValue>, LaurusError>(e),
        Ok(g) => if g.contains(doc_id) {
            r == Ok::<Option<DataValue>, LaurusError>(None)
        } else {
            match s.columns() {
                Err(e) => r == Err::<Option<DataValue>, LaurusError>(e),
                Ok(c) => segment_reader::column_value(decode, c, field, doc_id, r),
            }
        },
    }
}

/// Whether a segment may give a document no value.
pub open spec fn no_value_in<C: Fn(&[u8]) -> Result<Vec<(u64, DataValue)>, LaurusError>>(
    decode: C,
    s: SegmentReader,
    field: Seq<char>,
    doc_id: u64,
) -> bool {
    exists|r: Result<Option<DataValue>, LaurusError>| #[trigger]
        value_in(decode, s, field, doc_id, r) && !(r is Ok && r->Ok_0 is Some)
}

/// Whether the value of a document is that of segment `k`, and of none before it.
pub open spec fn first_value_at<C: Fn(&[u8]) -> Result<Vec<(u64, DataValue)>, LaurusError>>(
    decode: C,
    readers: Seq<SegmentReader>,
    field: Seq<char>,
    doc_id: u64,
    k: int,
    v: DataValue,
) -> bool {
    &&& value_in(decode, readers[k], field, doc_id, Ok(Some(v)))
    &&& forall|i: int| 0 <= i < k ==> no_value_in(decode, #[trigger] readers[i], field, doc_id)
}

/// Whether this is the value of a document in the first of some segments that gives one,
/// and none only where none of them gives one.
pub open spec fn value_found<C: Fn(&[u8]) -> Result<Vec<(u64, DataValue)>, LaurusError>>(
    decode: C,
    readers: Seq<SegmentReader>,
    field: Seq<char>,
    doc_id: u64,
    r: Option<DataValue>,
) -> bool {
    match r {
        Some(v) => exists|k: int|
            0 <= k < readers.len() && #[trigger] first_value_at(
                decode,
                readers,
                field,
                doc_id,
                k,
                v,
            ),
        None => forall|i: int|
            0 <= i < readers.len() ==> no_value_in(
                decode,
                #[trigger] readers[i],
                field,
                doc_id,
            ),
    }
}

/// The point trees of a field in those of the first `n` segments that have one, or the
/// first reason why one cannot be had.
pub open spec fn trees_found(readers: Seq<SegmentReader>, field: Seq<char>, n: int) -> Result<
    Seq<BKDReader>,
    LaurusError,
>
    decreases n,
{
    if n <= 0 {
        Ok(Seq::empty())
    } else {
        match trees_found(readers, field, n - 1) {
            Err(e) => Err(e),
            Ok(s) => match names::value_of(readers[n - 1].trees(), field) {
                None => Ok(s),
                Some(Err(e)) => Err(e),
                Some(Ok(t)) => Ok(s.push(t)),
            },
        }
    }
}

proof fn lemma_trees_fail(readers: Seq<SegmentReader>, field: Seq<char>, k: int, n: int)
    requires
        0 <= k <= n,
        trees_found(readers, field, k) is Err,
    ensures
        trees_found(readers, field, n) == trees_found(readers, field, k),
    decreases n,
{
    if k < n {
        lemma_trees_fail(readers, field, k, n - 1);
    }
}

/// The documents that the first `n` segments have deleted within their ranges, or the
/// first reason why they cannot be had.
pub open spec fn gone_in(readers: Seq<SegmentReader>, n: int) -> Result<Set<u64>, LaurusError>
    decreases n,
{
    if n <= 0 {
        Ok(Set::empty())
    } else {
        match gone_in(readers, n - 1) {
            Err(e) => Err(e),
            Ok(s) => match readers[n - 1].gone() {
                Err(e) => Err(e),
                Ok(g) => Ok(s.union(segment_reader::gone_within(readers[n - 1].about(), g))),
            },
        }
    }
}

proof fn lemma_gone_fails(readers: Seq<SegmentReader>, k: int, n: int)
    requires
        0 <= k <= n,
        gone_in(readers, k) is Err,
    ensures
        gone_in(readers, n) == gone_in(readers, k),
    decreases n,
{
    if k < n {
        lemma_gone_fails(readers, k, n - 1);
    }
}

/// The trees, one behind another.
pub open spec fn chained_trees(s: Seq<BKDReader>, n: int) -> Tree
    decreases n,
{
    if n <= 0 {
        Tree::Empty
    } else {
        Tree::Both {
            first: Box::new(chained_trees(s, n - 1)),
            second: Box::new(s[n - 1].tree()),
        }
    }
}

/// Trees one behind another, as they are and by reference.
pub proof fn lemma_chained_trees(s: Seq<BKDReader>, refs: Seq<&BKDReader>, n: int)
    requires
        0 <= n <= s.len(),
        refs.len() == s.len(),
        forall|i: int| 0 <= i < s.len() ==> *(#[trigger] refs[i]) == s[i],
    ensures
        live_tree::chained(refs, n) == chained_trees(s, n),
    decreases n,
{
    if n > 0 {
        lemma_chained_trees(s, refs, n - 1);
        assert(*refs[n - 1] == s[n - 1]);
    }
}

impl InvertedIndexReader {
    /// The value of a document in the column of a field: that of the first segment that
    /// gives one. A segment that cannot be read is passed over.
    pub fn get_doc_value<C: Fn(&[u8]) -> Result<Vec<(u64, DataValue)>, LaurusError>>(
        &self,
        field: &str,
        doc_id: u64,
        decode: &C,
    ) -> (r: Result<Option<DataValue>, LaurusError>)
        requires
            forall|s: &[u8]| call_requires(*decode, (s,)),
        ensures
            r is Ok,
            value_found(*decode, self.segments(), field@, doc_id, r->Ok_0),
    {
        let n: usize = self.segment_readers.len();
        let mut i: usize = 0;
        while i < n
            invariant
                n == self.segment_readers@.len(),
                i <= n,
                forall|s: &[u8]| call_requires(*decode, (s,)),
                forall|j: int|
                    0 <= j < i ==> no_value_in(*decode, #[trigger] self.segments()[j], field@, doc_id),
            decreases n - i,
        {
            let res: Result<Option<DataValue>, LaurusError> = self.segment_readers[i].get_doc_value(
                field,
                doc_id,
                decode,
            );
            assert(value_in(*decode, self.segments()[i as int], field@, doc_id, res));
            if let Ok(Some(v)) = res {
                assert(first_value_at(*decode, self.segments(), field@, doc_id, i as int, v));
                return Ok(Some(v));
            }
            i = i + 1;
        }
        Ok(None)
    }

    /// Whether some segment has a column for a field.
    pub fn has_doc_values(&self, field: &str) -> (r: bool)
        ensures
            r == some_has_column(self.segments(), field@),
    {
        let n: usize = self.segment_readers.len();
        let mut i: usize = 0;
        while i < n
            invariant
                n == self.segment_readers@.len(),
                i <= n,
                forall|j: int| 0 <= j < i ==> !has_column(#[trigger] self.segments()[j], field@),
            decreases n - i,
        {
            if self.segment_readers[i].has_doc_values(field) {
                assert(has_column(self.segments()[i as int], field@));
                return true;
            }
            assert(!has_column(self.segments()[i as int], field@));
            i = i + 1;
        }
        false
    }

    /// The point trees of a field of all segments, one behind another, without the
    /// points of deleted documents.
    pub fn get_bkd_tree(&self, field: &str) -> (r: Result<
        Option<DeletionFilteringBKDTree<MultiSegmentBKDTree<BKDReader>>>,
        LaurusError,
    >)
        requires
            self.wf(),
        ensures
            if self.has_closed() {
                r is Err && r->Err_0 == LaurusError::ReaderClosed
            } else {
                let n = self.segments().len() as int;
                match trees_found(self.segments(), field@, n) {
                    Err(e) => r is Err && r->Err_0 == e,
                    Ok(s) => if s.len() == 0 {
                        r is Ok && r->Ok_0 is None
                    } else {
                        match gone_in(self.segments(), n) {
                            Err(e) => r is Err && r->Err_0 == e,
                            Ok(g) => r is Ok && r->Ok_0 is Some && r->Ok_0->Some_0.tree()
                                == live_tree::live_tree(chained_trees(s, s.len() as int), g),
                        }
                    },
                }
            },
    {
        match self.check_closed() {
            Ok(_) => {},
            Err(e) => return Err(e),
        }
        let ghost readers = self.segments();
        let n: usize = self.segment_readers.len();
        let mut trees: Vec<&BKDReader> = Vec::new();
        let ghost mut found: Seq<BKDReader> = Seq::empty();
        let mut i: usize = 0;
        while i < n
            invariant
                self.wf(),
                !self.has_closed(),
                readers == self.segments(),
                n == self.segment_readers@.len(),
                i <= n,
                trees_found(readers, field@, i as int) == Ok::<Seq<BKDReader>, LaurusError>(found),
                trees@.len() == found.len(),
                forall|j: int| 0 <= j < found.len() ==> *(#[trigger] trees@[j]) == found[j],
            decreases n - i,
        {
            assert(self.segment_readers@[i as int].wf());
            match self.segment_readers[i].get_bkd_tree(field) {
                Err(e) => {
                    proof {
                        lemma_trees_fail(readers, field@, i + 1, n as int);
                    }
                    return Err(e);
                },
                Ok(None) => {},
                Ok(Some(tree)) => {
                    trees.push(tree);
                    proof {
                        found = found.push(*tree);
                    }
                },
            }
            i = i + 1;
        }
        if trees.len() == 0 {
            return Ok(None);
        }
        let mut bitmaps: Vec<(u64, u64, std::sync::Arc<DeletionBitmap>)> = Vec::new();
        let ghost mut gone: Set<u64> = Set::empty();
        let mut j: usize = 0;
        assert forall|id: u64| gone.contains(id) == live_tree::marked_by(
            bitmaps@,
            bitmaps@.len() as int,
            id,
        ) by {}
        while j < n
            invariant
                !self.has_closed(),
                readers == self.segments(),
                n == self.segment_readers@.len(),
                j <= n,
                trees_found(readers, field@, n as int) == Ok::<Seq<BKDReader>, LaurusError>(found),
                found.len() > 0,
                gone_in(readers, j as int) == Ok::<Set<u64>, LaurusError>(gone),
                forall|id: u64| #[trigger]
                    gone.contains(id) == live_tree::marked_by(bitmaps@, bitmaps@.len() as int, id),
            decreases n - j,
        {
            let reader: &SegmentReader = &self.segment_readers[j];
            let ghost before = bitmaps@;
            let ghost earlier = gone;
            match reader.deletion_bitmap() {
                Err(e) => {
                    proof {
                        lemma_gone_fails(readers, j + 1, n as int);
                    }
                    return Err(e);
                },
                Ok(None) => {
                    proof {
                        assert(segment_reader::gone_within(reader.about(), Set::empty())
                            =~= Set::<u64>::empty());
                        assert(gone.union(Set::empty()) =~= gone);
                    }
                },
                Ok(Some(bitmap)) => {
                    let info: &SegmentInfo = reader.segment_info();
                    let lo: u64 = info.min_doc_id;
                    let hi: u64 = info.max_doc_id;
                    bitmaps.push((lo, hi, bitmap.clone()));
                    proof {
                        let g = reader.gone()->Ok_0;
                        let within = segment_reader::gone_within(reader.about(), g);
                        gone = gone.union(within);
                        assert forall|id: u64| #[trigger] gone.contains(id) == live_tree::marked_by(
                            bitmaps@,
                            bitmaps@.len() as int,
                            id,
                        ) by {
                            lemma_marked_by_push(before, bitmaps@.last(), id);
                            assert(bitmaps@ =~= before.push(bitmaps@.last()));
                            assert(live_tree::marked_in(bitmaps@.last().2) == g);
                            assert(earlier.contains(id) == live_tree::marked_by(
                                before,
                                before.len() as int,
                                id,
                            ));
                        }
                    }
                },
            }
            j = j + 1;
        }
        let multi: MultiSegmentBKDTree<BKDReader> = MultiSegmentBKDTree { trees };
        let snapshot = DeletionSnapshot { bitmaps };
        proof {
            assert(snapshot.gone() =~= gone) by {
                assert forall|id: u64| snapshot.gone().contains(id) == gone.contains(id) by {}
            }
            lemma_chained_trees(found, multi.trees@, found.len() as int);
        }
        Ok(Some(DeletionFilteringBKDTree { inner: multi, snapshot }))
    }

    /// The dictionaries of the segments that have one, or the first reason why one cannot
    /// be had; `None` where no segment has one.
    pub fn terms(&self) -> (r: Result<Option<Vec<&TermDictionary>>, LaurusError>)
        ensures
            match dictionaries(self.segments(), self.segments().len() as int) {
                Err(e) => r is Err && r->Err_0 == e,
                Ok(s) => if s.len() == 0 {
                    r is Ok && r->Ok_0 is None
                } else {
                    r is Ok && r->Ok_0 is Some && are_dictionaries(r->Ok_0->Some_0@, s)
                },
            },
    {
        let ghost readers = self.segments();
        let n: usize = self.segment_readers.len();
        let mut dicts: Vec<&TermDictionary> = Vec::new();
        let ghost mut found: Seq<TermDictionary> = Seq::empty();
        let mut i: usize = 0;
        while i < n
            invariant
                readers == self.segments(),
                n == self.segment_readers@.len(),
                i <= n,
                dictionaries(readers, i as int) == Ok::<Seq<TermDictionary>, LaurusError>(found),
                dicts@.len() == found.len(),
                forall|j: int| 0 <= j < found.len() ==> *(#[trigger] dicts@[j]) == found[j],
            decreases n - i,
        {
            match self.segment_readers[i].term_dictionary() {
                Err(e) => {
                    proof {
                        lemma_dictionaries_fail(readers, i + 1, n as int);
                    }
                    return Err(e);
                },
                Ok(None) => {},
                Ok(Some(dict)) => {
                    dicts.push(dict);
                    proof {
                        found = found.push(*dict);
                    }
                },
            }
            i = i + 1;
        }
        if dicts.len() == 0 {
            return Ok(None);
        }
        Ok(Some(dicts))
    }
}

/// Whether a segment has a column for a field.
pub open spec fn has_column(s: SegmentReader, field: Seq<char>) -> bool {
    s.columns() is Ok && names::has_name(s.columns()->Ok_0.fields(), field)
}

/// Whether some segment has a column for a field.
pub open spec fn some_has_column(readers: Seq<SegmentReader>, field: Seq<char>) -> bool {
    exists|i: int| 0 <= i < readers.len() && has_column(#[trigger] readers[i], field)
}

/// Whether `list` refers to these dictionaries, in their order.
pub open spec fn are_dictionaries(list: Seq<&TermDictionary>, s: Seq<TermDictionary>) -> bool {
    &&& list.len() == s.len()
    &&& forall|i: int| 0 <= i < s.len() ==> *(#[trigger] list[i]) == s[i]
}

/// The dictionaries of those of the first `n` segments that have one, or the first
/// reason why one cannot be had.
pub open spec fn dictionaries(readers: Seq<SegmentReader>, n: int) -> Result<
    Seq<TermDictionary>,
    LaurusError,
>
    decreases n,
{
    if n <= 0 {
        Ok(Seq::empty())
    } else {
        match dictionaries(readers, n - 1) {
            Err(e) => Err(e),
            Ok(s) => match readers[n - 1].dictionary() {
                Err(e) => Err(e),
                Ok(None) => Ok(s),
                Ok(Some(d)) => Ok(s.push(d)),
            },
        }
    }
}

proof fn lemma_dictionaries_fail(readers: Seq<SegmentReader>, k: int, n: int)
    requires
        0 <= k <= n,
        dictionaries(readers, k) is Err,
    ensures
        dictionaries(readers, n) == dictionaries(readers, k),
    decreases n,
{
    if k < n {
        lemma_dictionaries_fail(readers, k, n - 1);
    }
}

proof fn lemma_marked_by_push(
    before: Seq<(u64, u64, std::sync::Arc<DeletionBitmap>)>,
    last: (u64, u64, std::sync::Arc<DeletionBitmap>),
    id: u64,
)
    ensures
        live_tree::marked_by(before.push(last), before.len() as int + 1, id) == (live_tree::marked_by(
            before,
            before.len() as int,
            id,
        ) || (last.0 <= id <= last.1 && live_tree::marked_in(last.2).contains(id))),
{
    let after = before.push(last);
    if live_tree::marked_by(before, before.len() as int, id) {
        let k = choose|k: int|
            0 <= k < before.len() && (#[trigger] before[k]).0 <= id <= before[k].1
                && live_tree::marked_in(before[k].2).contains(id);
        assert(after[k] == before[k]);
    }
    if last.0 <= id <= last.1 && live_tree::marked_in(last.2).contains(id) {
        assert(after[before.len() as int] == last);
    }
    if live_tree::marked_by(after, before.len() as int + 1, id) {
        let k = choose|k: int|
            0 <= k < before.len() + 1 && (#[trigger] after[k]).0 <= id <= after[k].1
                && live_tree::marked_in(after[k].2).contains(id);
        if k < before.len() {
            assert(before[k] == after[k]);
        }
    }
}

} // verus!
