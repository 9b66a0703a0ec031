//! Segments and what they hold.

use std::sync::Arc;

use roaring::RoaringTreemap;

use vstd::prelude::*;
use vstd::set_lib::*;

use crate::deletion::DeletionBitmap;
use crate::error::LaurusError;
use crate::outside;
use crate::treemap;

verus! {

/// A segment of the index.
#[derive(Debug, PartialEq)]
pub struct SegmentInfo {
    pub segment_id: String,
    pub doc_count: u64,
    pub min_doc_id: u64,
    pub max_doc_id: u64,
    pub generation: u64,
    pub has_deletions: bool,
    /// How many documents are deleted, where that was recorded.
    pub deleted_count: Option<u64>,
    pub shard_id: u16,
}

/// What a segment is known by.
#[verifier::ext_equal]
pub struct SegmentView {
    pub segment_id: Seq<char>,
    pub doc_count: u64,
    pub min_doc_id: u64,
    pub max_doc_id: u64,
    pub generation: u64,
    pub has_deletions: bool,
    pub deleted_count: Option<u64>,
    pub shard_id: u16,
}

impl View for SegmentInfo {
    type V = SegmentView;

    open spec fn view(&self) -> SegmentView {
        SegmentView {
            segment_id: self.segment_id@,
            doc_count: self.doc_count,
            min_doc_id: self.min_doc_id,
            max_doc_id: self.max_doc_id,
            generation: self.generation,
            has_deletions: self.has_deletions,
            deleted_count: self.deleted_count,
            shard_id: self.shard_id,
        }
    }
}

impl Clone for SegmentInfo {
    fn clone(&self) -> (r: SegmentInfo)
        ensures
            r@ == self@,
    {
        SegmentInfo {
            segment_id: self.segment_id.clone(),
            doc_count: self.doc_count,
            min_doc_id: self.min_doc_id,
            max_doc_id: self.max_doc_id,
            generation: self.generation,
            has_deletions: self.has_deletions,
            deleted_count: self.deleted_count,
            shard_id: self.shard_id,
        }
    }
}

// ---------------------------------------------------------------------------
// What a segment holds
// ---------------------------------------------------------------------------

/// The width of a range of ids, where it can be counted.
pub open spec fn width_of(min_doc_id: u64, max_doc_id: u64) -> Option<u64> {
    if min_doc_id <= max_doc_id && max_doc_id - min_doc_id < u64::MAX {
        Some((max_doc_id - min_doc_id + 1) as u64)
    } else {
        None
    }
}

/// The width of a range of ids; none where the range is inverted or holds all
/// ids.
pub fn range_width(min_doc_id: u64, max_doc_id: u64) -> (r: Option<u64>)
    ensures
        r == width_of(min_doc_id, max_doc_id),
{
    match max_doc_id.checked_sub(min_doc_id) {
        Some(w) => w.checked_add(1),
        None => None,
    }
}

/// What a segment is known to hold. Its range of ids can contain ids that it does
/// not hold.
pub enum Membership {
    /// No document.
    Empty,
    /// Every id of the range.
    Range,
    /// Exactly these ids.
    Exactly(Arc<RoaringTreemap>),
    /// Not recorded, or recorded in disagreement with the segment.
    Unknown,
}

impl Membership {
    /// The ids that a segment with this range holds, where they are known.
    pub open spec fn ids(&self, min_doc_id: u64, max_doc_id: u64) -> Option<Set<u64>> {
        match self {
            Membership::Empty => Some(Set::empty()),
            Membership::Range => Some(treemap::id_range(min_doc_id, max_doc_id)),
            Membership::Exactly(ids) => Some(treemap::treemap_ids(**ids)),
            Membership::Unknown => None,
        }
    }

    /// What a segment holds where its shape alone decides it: without documents
    /// nothing, and without gaps in its range all of it.
    pub fn from_shape(min_doc_id: u64, max_doc_id: u64, doc_count: u64) -> (r: Option<Membership>)
        ensures
            doc_count == 0 ==> r == Some(Membership::Empty),
            doc_count > 0 && width_of(min_doc_id, max_doc_id) == Some(doc_count) ==> r == Some(
                Membership::Range,
            ),
            doc_count > 0 && width_of(min_doc_id, max_doc_id) != Some(doc_count) ==> r is None,
    {
        if doc_count == 0 {
            return Some(Membership::Empty);
        }
        match range_width(min_doc_id, max_doc_id) {
            Some(width) => if width == doc_count {
                Some(Membership::Range)
            } else {
                None
            },
            None => None,
        }
    }

    /// What a segment holds, from a set that was loaded for it. The set is trusted
    /// only where it agrees with the count and the range of the segment.
    pub fn from_loaded(
        min_doc_id: u64,
        max_doc_id: u64,
        doc_count: u64,
        loaded: Result<Option<RoaringTreemap>, LaurusError>,
    ) -> (r: Membership)
        ensures
            match loaded {
                Ok(Some(set)) => {
                    let ids = treemap::treemap_ids(set);
                    &&& ids.len() <= u64::MAX && agrees(ids, min_doc_id, max_doc_id, doc_count)
                        ==> r is Exactly && treemap::treemap_ids(*r->Exactly_0) == ids
                    &&& ids.len() <= u64::MAX && !agrees(ids, min_doc_id, max_doc_id, doc_count)
                        ==> r is Unknown
                },
                Ok(None) => r is Unknown,
                Err(_) => r is Unknown,
            },
    {
        match loaded {
            Ok(Some(set)) => {
                let trusted: bool = treemap::treemap_len(&set) == doc_count
                    && Self::is(treemap::treemap_min(&set), min_doc_id)
                    && Self::is(treemap::treemap_max(&set), max_doc_id);
                if trusted {
                    Membership::Exactly(Arc::new(set))
                } else {
                    Membership::Unknown
                }
            },
            Ok(None) => Membership::Unknown,
            Err(_) => Membership::Unknown,
        }
    }

    fn is(v: Option<u64>, expected: u64) -> (r: bool)
        ensures
            r == (v == Some(expected)),
    {
        match v {
            Some(x) => x == expected,
            None => false,
        }
    }

    /// Whether the segment holds an id of its range, where that is known.
    pub fn holds(&self, doc_id: u64) -> (r: Option<bool>)
        ensures
            r == (match self {
                Membership::Empty => Some(false),
                Membership::Range => Some(true),
                Membership::Exactly(ids) => Some(treemap::treemap_ids(**ids).contains(doc_id)),
                Membership::Unknown => None,
            }),
    {
        match self {
            Membership::Empty => Some(false),
            Membership::Range => Some(true),
            Membership::Exactly(ids) => Some(treemap::treemap_contains(ids, doc_id)),
            Membership::Unknown => None,
        }
    }

    /// How many of the documents that the segment holds are marked as deleted.
    /// Where it is not known what the segment holds, at most as many marks as
    /// there are gaps in the range can lie on ids that it does not hold; the rest
    /// is counted.
    pub fn held_deletions(
        &self,
        bitmap: &DeletionBitmap,
        min_doc_id: u64,
        max_doc_id: u64,
        doc_count: u64,
    ) -> (r: u64)
        requires
            bitmap.marked().len() <= u64::MAX,
        ensures
            self.ids(min_doc_id, max_doc_id) matches Some(ids) ==> r == ids.intersect(
                bitmap.marked(),
            ).len(),
            self is Unknown ==> r == unknown_deletions(
                bitmap.marked(),
                min_doc_id,
                max_doc_id,
                doc_count,
            ),
    {
        let ghost marked = bitmap.marked();
        let ghost range = treemap::id_range(min_doc_id, max_doc_id);
        proof {
            treemap::lemma_ids_finite(marked);
            lemma_len_intersect(marked, range);
            assert(marked.intersect(range) =~= range.intersect(marked));
        }
        match self {
            Membership::Empty => {
                assert(Set::<u64>::empty().intersect(marked) =~= Set::<u64>::empty());
                0
            },
            Membership::Range => bitmap.deleted_in_range(min_doc_id, max_doc_id),
            Membership::Exactly(ids) => {
                proof {
                    let held = self.ids(min_doc_id, max_doc_id)->Some_0;
                    lemma_len_intersect(marked, held);
                    assert(marked.intersect(held) =~= held.intersect(marked));
                }
                bitmap.deleted_count_in(ids)
            },
            Membership::Unknown => {
                let width: u64 = match range_width(min_doc_id, max_doc_id) {
                    Some(w) => w,
                    None => u64::MAX,
                };
                let gaps: u64 = width.saturating_sub(doc_count);
                bitmap.deleted_in_range(min_doc_id, max_doc_id).saturating_sub(gaps)
            },
        }
    }
}

/// Whether a set of ids has the count and the range of a segment.
pub open spec fn agrees(ids: Set<u64>, min_doc_id: u64, max_doc_id: u64, doc_count: u64) -> bool {
    &&& ids.len() == doc_count
    &&& ids.contains(min_doc_id)
    &&& ids.contains(max_doc_id)
    &&& forall|x: u64| #[trigger] ids.contains(x) ==> min_doc_id <= x <= max_doc_id
}

/// `a - b`, but not below zero.
pub open spec fn minus(a: int, b: int) -> int {
    if a >= b {
        a - b
    } else {
        0
    }
}

/// How many deletions are counted of a segment of which it is not known what it
/// holds.
pub open spec fn unknown_deletions(
    marked: Set<u64>,
    min_doc_id: u64,
    max_doc_id: u64,
    doc_count: u64,
) -> int {
    let width = match width_of(min_doc_id, max_doc_id) {
        Some(w) => w,
        None => u64::MAX,
    };
    minus(
        marked.intersect(treemap::id_range(min_doc_id, max_doc_id)).len() as int,
        minus(width as int, doc_count as int),
    )
}

/// Where it is not known which ids of its range a segment holds, no more
/// deletions are counted than there are: what is left of its documents is never
/// too few. Where the range has no gaps, exactly as many are counted. The range of all
/// ids, whose width cannot be counted, is left out.
pub proof fn lemma_unknown_is_lower_bound(
    held: Set<u64>,
    marked: Set<u64>,
    min_doc_id: u64,
    max_doc_id: u64,
)
    requires
        held.subset_of(treemap::id_range(min_doc_id, max_doc_id)),
        min_doc_id > 0 || max_doc_id < u64::MAX,
    ensures
        held.len() <= u64::MAX,
        unknown_deletions(marked, min_doc_id, max_doc_id, held.len() as u64) <= held.intersect(
            marked,
        ).len() <= held.len(),
        width_of(min_doc_id, max_doc_id) == Some(held.len() as u64) ==> unknown_deletions(
            marked,
            min_doc_id,
            max_doc_id,
            held.len() as u64,
        ) == held.intersect(marked).len(),
{
    let range = treemap::id_range(min_doc_id, max_doc_id);
    treemap::lemma_ids_finite(held);
    treemap::lemma_ids_finite(marked);
    treemap::lemma_id_range(min_doc_id, max_doc_id);
    lemma_len_subset(held, range);
    let inside = marked.intersect(range);
    let strays = inside.difference(held);
    let hit = inside.intersect(held);
    let gaps = range.difference(held);
    treemap::lemma_ids_finite(inside);
    assert(hit =~= held.intersect(marked));
    lemma_set_difference_len(inside, held);
    lemma_len_subset(strays, gaps);
    assert(range.intersect(held) =~= held);
    lemma_set_difference_len(range, held);
    lemma_len_intersect(held, marked);
    if min_doc_id > max_doc_id {
        assert(inside =~= Set::<u64>::empty());
    }
}

/// A set that agrees with a segment without gaps is its whole range.
pub proof fn lemma_shape_is_membership(
    held: Set<u64>,
    min_doc_id: u64,
    max_doc_id: u64,
    doc_count: u64,
)
    requires
        agrees(held, min_doc_id, max_doc_id, doc_count),
        width_of(min_doc_id, max_doc_id) == Some(doc_count),
    ensures
        held == treemap::id_range(min_doc_id, max_doc_id),
{
    treemap::lemma_ids_finite(held);
    treemap::lemma_id_range(min_doc_id, max_doc_id);
    lemma_subset_equality(held, treemap::id_range(min_doc_id, max_doc_id));
}

// ---------------------------------------------------------------------------
// Merging
// ---------------------------------------------------------------------------

/// A segment with what its upkeep needs.
#[derive(Debug, Clone, PartialEq)]
pub struct ManagedSegmentInfo {
    pub segment_info: SegmentInfo,
    pub size_bytes: u64,
    pub deleted_count: u64,
    pub created_at: u64,
    pub last_modified: u64,
    pub tier: u8,
    pub is_merging: bool,
    pub file_paths: Vec<String>,
}

impl ManagedSegmentInfo {
    /// A segment that has just been created.
    pub fn new(segment_info: SegmentInfo) -> (r: ManagedSegmentInfo)
        ensures
            r.segment_info == segment_info,
            r.size_bytes == 0,
            r.deleted_count == 0,
            r.created_at == r.last_modified,
            r.tier == 0,
            !r.is_merging,
            r.file_paths@ == Seq::<String>::empty(),
    {
        Self::created_at(segment_info, outside::now_secs())
    }

    /// A segment that was created at `now`.
    pub fn created_at(segment_info: SegmentInfo, now: u64) -> (r: ManagedSegmentInfo)
        ensures
            r.segment_info == segment_info,
            r.size_bytes == 0,
            r.deleted_count == 0,
            r.created_at == now,
            r.last_modified == now,
            r.tier == 0,
            !r.is_merging,
            r.file_paths@ == Seq::<String>::empty(),
    {
        let file_paths: Vec<String> = Vec::new();
        assert(file_paths@ =~= Seq::<String>::empty());
        ManagedSegmentInfo {
            segment_info,
            size_bytes: 0,
            deleted_count: 0,
            created_at: now,
            last_modified: now,
            tier: 0,
            is_merging: false,
            file_paths,
        }
    }

    /// How many documents are not deleted.
    pub fn effective_doc_count(&self) -> (r: u64)
        ensures
            r == minus(self.segment_info.doc_count as int, self.deleted_count as int),
    {
        self.segment_info.doc_count.saturating_sub(self.deleted_count)
    }
}

/// How segments are ordered for a merge.
#[derive(Debug, Clone, Copy, PartialEq, Eq, Structural)]
pub enum MergeStrategy {
    /// Small segments first.
    SizeBased,
    /// Segments with a high share of deletions first.
    DeletionBased,
    /// Old segments first.
    TimeBased,
    /// By several factors.
    Balanced,
}

/// Segments that are to be merged. The priority is the pattern of a number.
#[derive(Debug, Clone)]
pub struct MergeCandidate {
    pub segments: Vec<String>,
    pub priority: u64,
    pub estimated_size: u64,
    pub strategy: MergeStrategy,
}

} // verus!
