//! Deleted documents of a segment.

use roaring::RoaringTreemap;

use vstd::prelude::*;
use vstd::set_lib::*;

use crate::error::LaurusError;
use crate::treemap;

verus! {

/// The deleted documents of a segment of `doc_count` documents.
pub struct DeletionBitmap {
    deleted: RoaringTreemap,
    doc_count: u64,
}

impl DeletionBitmap {
    /// The documents that are marked as deleted.
    pub closed spec fn marked(&self) -> Set<u64> {
        treemap::treemap_ids(self.deleted)
    }

    /// How many documents the segment has.
    pub closed spec fn size(&self) -> u64 {
        self.doc_count
    }

    /// Marks documents, given in ascending order without repetition.
    pub fn from_sorted(deleted: &[u64], doc_count: u64) -> (r: Result<DeletionBitmap, LaurusError>)
        ensures
            crate::sort::ascends(deleted@) ==> r is Ok && r->Ok_0.marked() == deleted@.to_set()
                && r->Ok_0.size() == doc_count,
            !crate::sort::ascends(deleted@) ==> r == Err::<DeletionBitmap, LaurusError>(
                LaurusError::UnsortedIds {
                    valid_until: treemap::ascending_front(deleted@) as u64,
                },
            ),
    {
        match treemap::treemap_from_sorted(deleted) {
            Ok(set) => Ok(DeletionBitmap { deleted: set, doc_count }),
            Err(valid_until) => Err(LaurusError::UnsortedIds { valid_until }),
        }
    }

    /// The marked documents.
    pub fn deleted_docs(&self) -> (r: &RoaringTreemap)
        ensures
            treemap::treemap_ids(*r) == self.marked(),
    {
        &self.deleted
    }

    /// Whether a document is marked.
    pub fn is_deleted(&self, doc_id: u64) -> (r: bool)
        ensures
            r == self.marked().contains(doc_id),
    {
        treemap::treemap_contains(&self.deleted, doc_id)
    }

    /// How many documents of a range are marked.
    pub fn deleted_in_range(&self, min_doc_id: u64, max_doc_id: u64) -> (r: u64)
        ensures
            self.marked().intersect(treemap::id_range(min_doc_id, max_doc_id)).len() <= u64::MAX
                ==> r == self.marked().intersect(treemap::id_range(min_doc_id, max_doc_id)).len(),
    {
        treemap::treemap_range_cardinality(&self.deleted, min_doc_id, max_doc_id)
    }

    /// How many documents of a set are marked.
    pub fn deleted_count_in(&self, ids: &RoaringTreemap) -> (r: u64)
        ensures
            self.marked().intersect(treemap::treemap_ids(*ids)).len() <= u64::MAX ==> r
                == self.marked().intersect(treemap::treemap_ids(*ids)).len(),
    {
        treemap::treemap_intersection_len(&self.deleted, ids)
    }

    /// How many documents of the segment are not marked.
    pub fn live_count(&self) -> (r: u64)
        ensures
            self.marked().len() <= u64::MAX ==> r == (if self.size() >= self.marked().len() {
                (self.size() - self.marked().len()) as u64
            } else {
                0
            }),
    {
        self.doc_count.saturating_sub(treemap::treemap_len(&self.deleted))
    }
}

} // verus!
