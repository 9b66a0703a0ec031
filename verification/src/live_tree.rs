//! Point trees over several segments, and without deleted documents.
//!
//! A point tree knows nothing of deletions: the points of a deleted document stay
//! in it until segments are merged. What is searched is therefore a tree behind a
//! filter that drops deleted documents.

use std::sync::Arc;

use vstd::prelude::*;

use crate::bkd_tree;
use crate::bkd_tree::{BKDTree, Tree};
use crate::deletion::DeletionBitmap;
use crate::error::LaurusError;
use crate::visitor;
use crate::visitor::{AABB, Cell, CellRelation, IntersectVisitor, RangeQueryVisitor, RangeState};

verus! {

// ---------------------------------------------------------------------------
// Several trees
// ---------------------------------------------------------------------------

/// The trees of several segments.
pub struct MultiSegmentBKDTree<'a, T> {
    pub trees: Vec<&'a T>,
}

/// The first `n` trees, one behind another.
pub open spec fn chained<T: BKDTree>(trees: Seq<&T>, n: int) -> Tree
    decreases n,
{
    if n <= 0 {
        Tree::Empty
    } else {
        Tree::Both {
            first: Box::new(chained(trees, n - 1)),
            second: Box::new(trees[n - 1].tree()),
        }
    }
}

/// A walk that failed in the first trees fails there.
proof fn lemma_chained_fails<T: BKDTree, V: IntersectVisitor>(
    trees: Seq<&T>,
    k: int,
    n: int,
    s: V::State,
)
    requires
        0 <= k <= n,
        bkd_tree::walk::<V>(chained(trees, k), s).1 is Err,
    ensures
        bkd_tree::walk::<V>(chained(trees, n), s) == bkd_tree::walk::<V>(chained(trees, k), s),
    decreases n,
{
    if k < n {
        lemma_chained_fails::<T, V>(trees, k, n - 1, s);
    }
}

impl<'a, T: BKDTree> BKDTree for MultiSegmentBKDTree<'a, T> {
    open spec fn tree(&self) -> Tree {
        chained(self.trees@, self.trees@.len() as int)
    }

    fn intersect<V: IntersectVisitor>(&self, visitor: &mut V) -> (r: Result<(), LaurusError>) {
        let ghost s = visitor.state();
        let n: usize = self.trees.len();
        let mut i: usize = 0;
        while i < n
            invariant
                n == self.trees@.len(),
                i <= n,
                s == old(visitor).state(),
                (visitor.state(), Ok::<(), LaurusError>(())) == bkd_tree::walk::<V>(
                    chained(self.trees@, i as int),
                    s,
                ),
            decreases n - i,
        {
            let ghost before = visitor.state();
            proof {
                let both = chained(self.trees@, i + 1);
                assert(both == Tree::Both {
                    first: Box::new(chained(self.trees@, i as int)),
                    second: Box::new(self.trees@[i as int].tree()),
                });
                assert(bkd_tree::walk::<V>(both, s) == bkd_tree::walk::<V>(
                    self.trees@[i as int].tree(),
                    before,
                ));
            }
            let step: Result<(), LaurusError> = self.trees[i].intersect(visitor);
            assert((visitor.state(), step) == bkd_tree::walk::<V>(chained(self.trees@, i + 1), s));
            match step {
                Ok(u) => {
                    assert(u == ());
                },
                Err(e) => {
                    proof {
                        lemma_chained_fails::<T, V>(self.trees@, i + 1, n as int, s);
                    }
                    return Err(e);
                },
            }
            i = i + 1;
        }
        Ok(())
    }
}

/// A tree that is lent.
impl<'a, T: BKDTree> BKDTree for &'a T {
    open spec fn tree(&self) -> Tree {
        (**self).tree()
    }

    fn intersect<V: IntersectVisitor>(&self, visitor: &mut V) -> (r: Result<(), LaurusError>) {
        (**self).intersect(visitor)
    }

    /// As the tree itself answers.
    fn value_range(&self, dim: usize) -> (r: Option<(u64, u64, u64)>)
        ensures
            call_ensures(T::value_range, (*self, dim), r),
    {
        (**self).value_range(dim)
    }
}

// ---------------------------------------------------------------------------
// Deleted documents
// ---------------------------------------------------------------------------

/// The deleted documents of several segments: for each the least and the greatest
/// document of the segment, and what is marked.
pub struct DeletionSnapshot {
    pub bitmaps: Vec<(u64, u64, Arc<DeletionBitmap>)>,
}

/// What a bitmap marks.
pub open spec fn marked_in(b: Arc<DeletionBitmap>) -> Set<u64> {
    b.marked()
}

/// Whether one of the first `n` segments has the document in its range and marks
/// it.
pub open spec fn marked_by(
    bitmaps: Seq<(u64, u64, Arc<DeletionBitmap>)>,
    n: int,
    doc_id: u64,
) -> bool {
    exists|i: int|
        0 <= i < n && (#[trigger] bitmaps[i]).0 <= doc_id <= bitmaps[i].1 && marked_in(
            bitmaps[i].2,
        ).contains(doc_id)
}

impl DeletionSnapshot {
    /// The deleted documents.
    pub open spec fn gone(&self) -> Set<u64> {
        Set::new(|id: u64| marked_by(self.bitmaps@, self.bitmaps@.len() as int, id))
    }

    /// Whether no segment has deletions.
    pub fn is_empty(&self) -> (r: bool)
        ensures
            r == (self.bitmaps@.len() == 0),
            r ==> self.gone() == Set::<u64>::empty(),
    {
        proof {
            if self.bitmaps@.len() == 0 {
                assert(self.gone() =~= Set::<u64>::empty());
            }
        }
        self.bitmaps.len() == 0
    }

    /// Whether a document is deleted.
    pub fn is_deleted(&self, doc_id: u64) -> (r: bool)
        ensures
            r == self.gone().contains(doc_id),
    {
        let n: usize = self.bitmaps.len();
        let mut i: usize = 0;
        while i < n
            invariant
                n == self.bitmaps@.len(),
                i <= n,
                !marked_by(self.bitmaps@, i as int, doc_id),
            decreases n - i,
        {
            let entry: &(u64, u64, Arc<DeletionBitmap>) = &self.bitmaps[i];
            if entry.0 <= doc_id && doc_id <= entry.1 && entry.2.is_deleted(doc_id) {
                assert(marked_in(self.bitmaps@[i as int].2).contains(doc_id));
                assert(marked_by(self.bitmaps@, n as int, doc_id));
                return true;
            }
            assert(!marked_by(self.bitmaps@, i + 1, doc_id)) by {
                if marked_by(self.bitmaps@, i + 1, doc_id) {
                    let k = choose|k: int|
                        0 <= k < i + 1 && (#[trigger] self.bitmaps@[k]).0 <= doc_id
                            <= self.bitmaps@[k].1 && marked_in(self.bitmaps@[k].2).contains(doc_id);
                    assert(k < i);
                }
            }
            i = i + 1;
        }
        false
    }
}

/// Entries without those of deleted documents.
pub open spec fn live_entries(es: Seq<bkd_tree::Entry>, gone: Set<u64>) -> Seq<bkd_tree::Entry> {
    es.filter(|e: bkd_tree::Entry| !gone.contains(e.0))
}

/// A tree without the points of deleted documents; its cells stay.
pub open spec fn live_tree(t: Tree, gone: Set<u64>) -> Tree
    decreases t,
{
    match t {
        Tree::Empty => Tree::Empty,
        Tree::Broken { error } => Tree::Broken { error },
        Tree::Leaf { cell, entries } => Tree::Leaf {
            cell,
            entries: match entries {
                Ok(es) => Ok(live_entries(es, gone)),
                Err(e) => Err(e),
            },
        },
        Tree::Node { left_cell, left, right_cell, right } => Tree::Node {
            left_cell,
            left: Box::new(live_tree(*left, gone)),
            right_cell,
            right: Box::new(live_tree(*right, gone)),
        },
        Tree::Both { first, second } => Tree::Both {
            first: Box::new(live_tree(*first, gone)),
            second: Box::new(live_tree(*second, gone)),
        },
    }
}

/// A visitor that is not shown deleted documents.
pub struct DeletionFilteringVisitor<'a, V> {
    inner: V,
    snapshot: &'a DeletionSnapshot,
}

impl<'a, V: IntersectVisitor> IntersectVisitor for DeletionFilteringVisitor<'a, V> {
    type State = (V::State, Set<u64>);

    closed spec fn state(&self) -> (V::State, Set<u64>) {
        (self.inner.state(), self.snapshot.gone())
    }

    open spec fn relate(s: (V::State, Set<u64>), cell: Cell) -> CellRelation {
        V::relate(s.0, cell)
    }

    open spec fn entered(s: (V::State, Set<u64>), doc_id: u64) -> (V::State, Set<u64>) {
        if s.1.contains(doc_id) {
            s
        } else {
            (V::entered(s.0, doc_id), s.1)
        }
    }

    open spec fn visited(s: (V::State, Set<u64>), doc_id: u64, point: Seq<u64>) -> (
        V::State,
        Set<u64>,
    ) {
        if s.1.contains(doc_id) {
            s
        } else {
            (V::visited(s.0, doc_id, point), s.1)
        }
    }

    fn compare(&self, cell: &AABB) -> (r: CellRelation) {
        self.inner.compare(cell)
    }

    fn visit_inside(&mut self, doc_id: u64) {
        if !self.snapshot.is_deleted(doc_id) {
            self.inner.visit_inside(doc_id);
        }
    }

    fn visit(&mut self, doc_id: u64, point: &[u64]) {
        if !self.snapshot.is_deleted(doc_id) {
            self.inner.visit(doc_id, point);
        }
    }

    fn hand_over(&mut self) -> (r: DeletionFilteringVisitor<'a, V>) {
        DeletionFilteringVisitor { inner: self.inner.hand_over(), snapshot: self.snapshot }
    }
}

/// Documents taken past the filter are the documents that are not deleted.
proof fn lemma_enter_live<'a, V: IntersectVisitor>(
    s: V::State,
    es: Seq<bkd_tree::Entry>,
    gone: Set<u64>,
)
    ensures
        visitor::enter_all::<DeletionFilteringVisitor<'a, V>>((s, gone), bkd_tree::ids_of(es)) == (
            visitor::enter_all::<V>(s, bkd_tree::ids_of(live_entries(es, gone))),
            gone,
        ),
    decreases es.len(),
{
    let f = |e: bkd_tree::Entry| !gone.contains(e.0);
    reveal(Seq::filter);
    if es.len() > 0 {
        let front = es.drop_last();
        lemma_enter_live::<V>(s, front, gone);
        assert(bkd_tree::ids_of(es).drop_last() =~= bkd_tree::ids_of(front));
        assert(bkd_tree::ids_of(es).last() == es.last().0);
        if f(es.last()) {
            assert(live_entries(es, gone) == live_entries(front, gone).push(es.last()));
            assert(bkd_tree::ids_of(live_entries(es, gone)).drop_last() =~= bkd_tree::ids_of(
                live_entries(front, gone),
            ));
        } else {
            assert(live_entries(es, gone) == live_entries(front, gone));
        }
    } else {
        assert(bkd_tree::ids_of(es) =~= Seq::empty());
        assert(bkd_tree::ids_of(live_entries(es, gone)) =~= Seq::empty());
    }
}

/// Points shown past the filter are those of documents that are not deleted.
proof fn lemma_visit_live<'a, V: IntersectVisitor>(
    s: V::State,
    es: Seq<bkd_tree::Entry>,
    gone: Set<u64>,
)
    ensures
        visitor::visit_all::<DeletionFilteringVisitor<'a, V>>((s, gone), es) == (
            visitor::visit_all::<V>(s, live_entries(es, gone)),
            gone,
        ),
    decreases es.len(),
{
    let f = |e: bkd_tree::Entry| !gone.contains(e.0);
    reveal(Seq::filter);
    if es.len() > 0 {
        let front = es.drop_last();
        lemma_visit_live::<V>(s, front, gone);
        if f(es.last()) {
            assert(live_entries(es, gone) == live_entries(front, gone).push(es.last()));
            assert(live_entries(es, gone).drop_last() =~= live_entries(front, gone));
        } else {
            assert(live_entries(es, gone) == live_entries(front, gone));
        }
    } else {
        assert(live_entries(es, gone) =~= Seq::empty());
    }
}

proof fn lemma_collect_live<'a, V: IntersectVisitor>(t: Tree, s: V::State, gone: Set<u64>)
    ensures
        ({
            let end = bkd_tree::collect::<V>(live_tree(t, gone), s);
            bkd_tree::collect::<DeletionFilteringVisitor<'a, V>>(t, (s, gone)) == (
                (end.0, gone),
                end.1,
            )
        }),
    decreases t,
{
    match t {
        Tree::Leaf { cell, entries } => {
            if let Ok(es) = entries {
                lemma_enter_live::<V>(s, es, gone);
            }
        },
        Tree::Node { left_cell, left, right_cell, right } => {
            lemma_collect_live::<V>(*left, s, gone);
            let end = bkd_tree::collect::<V>(live_tree(*left, gone), s);
            if end.1 is Ok {
                lemma_collect_live::<V>(*right, end.0, gone);
            }
        },
        Tree::Both { first, second } => {
            lemma_collect_live::<V>(*first, s, gone);
            let end = bkd_tree::collect::<V>(live_tree(*first, gone), s);
            if end.1 is Ok {
                lemma_collect_live::<V>(*second, end.0, gone);
            }
        },
        _ => {},
    }
}

/// A walk past the filter is a walk of the tree without deleted documents.
proof fn lemma_walk_live<'a, V: IntersectVisitor>(t: Tree, s: V::State, gone: Set<u64>)
    ensures
        ({
            let end = bkd_tree::walk::<V>(live_tree(t, gone), s);
            bkd_tree::walk::<DeletionFilteringVisitor<'a, V>>(t, (s, gone)) == (
                (end.0, gone),
                end.1,
            )
        }),
    decreases t, 0nat,
{
    match t {
        Tree::Leaf { cell, entries } => {
            lemma_collect_live::<V>(t, s, gone);
            if let Ok(es) = entries {
                lemma_visit_live::<V>(s, es, gone);
            }
        },
        Tree::Node { left_cell, left, right_cell, right } => {
            lemma_walk_child_live::<V>(left_cell, *left, s, gone);
            let end = bkd_tree::walk_child::<V>(left_cell, live_tree(*left, gone), s);
            if end.1 is Ok {
                lemma_walk_child_live::<V>(right_cell, *right, end.0, gone);
            }
        },
        Tree::Both { first, second } => {
            lemma_walk_live::<V>(*first, s, gone);
            let end = bkd_tree::walk::<V>(live_tree(*first, gone), s);
            if end.1 is Ok {
                lemma_walk_live::<V>(*second, end.0, gone);
            }
        },
        _ => {},
    }
}

proof fn lemma_walk_child_live<'a, V: IntersectVisitor>(
    cell: Cell,
    t: Tree,
    s: V::State,
    gone: Set<u64>,
)
    ensures
        ({
            let end = bkd_tree::walk_child::<V>(cell, live_tree(t, gone), s);
            bkd_tree::walk_child::<DeletionFilteringVisitor<'a, V>>(cell, t, (s, gone)) == (
                (end.0, gone),
                end.1,
            )
        }),
    decreases t, 1nat,
{
    lemma_collect_live::<V>(t, s, gone);
    lemma_walk_live::<V>(t, s, gone);
}

/// Without deletions a tree stays as it is.
proof fn lemma_live_tree_of_none(t: Tree)
    ensures
        live_tree(t, Set::empty()) == t,
    decreases t,
{
    match t {
        Tree::Leaf { cell, entries } => {
            if let Ok(es) = entries {
                lemma_live_entries_of_none(es);
            }
        },
        Tree::Node { left_cell, left, right_cell, right } => {
            lemma_live_tree_of_none(*left);
            lemma_live_tree_of_none(*right);
        },
        Tree::Both { first, second } => {
            lemma_live_tree_of_none(*first);
            lemma_live_tree_of_none(*second);
        },
        _ => {},
    }
}

proof fn lemma_live_entries_of_none(es: Seq<bkd_tree::Entry>)
    ensures
        live_entries(es, Set::empty()) == es,
    decreases es.len(),
{
    reveal(Seq::filter);
    if es.len() > 0 {
        lemma_live_entries_of_none(es.drop_last());
        assert(live_entries(es, Set::empty()) =~= es);
    } else {
        assert(live_entries(es, Set::empty()) =~= es);
    }
}

/// A tree behind a filter that drops deleted documents.
pub struct DeletionFilteringBKDTree<T> {
    pub inner: T,
    pub snapshot: DeletionSnapshot,
}

impl<T: BKDTree> BKDTree for DeletionFilteringBKDTree<T> {
    open spec fn tree(&self) -> Tree {
        live_tree(self.inner.tree(), self.snapshot.gone())
    }

    fn intersect<V: IntersectVisitor>(&self, visitor: &mut V) -> (r: Result<(), LaurusError>) {
        let ghost s = visitor.state();
        if self.snapshot.is_empty() {
            proof {
                lemma_live_tree_of_none(self.inner.tree());
            }
            return self.inner.intersect(visitor);
        }
        proof {
            lemma_walk_live::<V>(self.inner.tree(), s, self.snapshot.gone());
        }
        let mut wrapped: DeletionFilteringVisitor<V> = DeletionFilteringVisitor {
            inner: visitor.hand_over(),
            snapshot: &self.snapshot,
        };
        let r: Result<(), LaurusError> = self.inner.intersect(&mut wrapped);
        *visitor = wrapped.inner;
        r
    }
}

// ---------------------------------------------------------------------------
// What is found
// ---------------------------------------------------------------------------

/// Documents that are not deleted.
pub open spec fn live_ids(ids: Seq<u64>, gone: Set<u64>) -> Seq<u64> {
    ids.filter(|id: u64| !gone.contains(id))
}

/// A search that has found what is not deleted.
pub open spec fn live_state(s: RangeState, gone: Set<u64>) -> RangeState {
    RangeState { hits: live_ids(s.hits, gone), ..s }
}

proof fn lemma_live_ids_push(ids: Seq<u64>, id: u64, gone: Set<u64>)
    ensures
        live_ids(ids.push(id), gone) == if gone.contains(id) {
            live_ids(ids, gone)
        } else {
            live_ids(ids, gone).push(id)
        },
{
    reveal(Seq::filter);
    assert(ids.push(id).drop_last() =~= ids);
}

/// What is looked for does not depend on what was found.
proof fn lemma_same_range(s: RangeState, t: RangeState, cell: Cell, point: Seq<u64>)
    requires
        s.mins == t.mins,
        s.maxs == t.maxs,
        s.include_min == t.include_min,
        s.include_max == t.include_max,
    ensures
        visitor::range_relation(s, cell) == visitor::range_relation(t, cell),
        visitor::in_range(s, point) == visitor::in_range(t, point),
{
    assert(visitor::in_range(s, cell.min) == visitor::in_range(t, cell.min));
    assert(visitor::in_range(s, cell.max) == visitor::in_range(t, cell.max));
    if visitor::cell_misses(s, cell) {
        let d = choose|d: int|
            0 <= d < cell.min.len() && d < cell.max.len() && #[trigger] visitor::misses_in(s, cell, d);
        assert(visitor::misses_in(t, cell, d));
    }
    if visitor::cell_misses(t, cell) {
        let d = choose|d: int|
            0 <= d < cell.min.len() && d < cell.max.len() && #[trigger] visitor::misses_in(t, cell, d);
        assert(visitor::misses_in(s, cell, d));
    }
}

proof fn lemma_found_inside(s: RangeState, es: Seq<bkd_tree::Entry>, gone: Set<u64>)
    ensures
        visitor::enter_all::<RangeQueryVisitor>(
            live_state(s, gone),
            bkd_tree::ids_of(live_entries(es, gone)),
        ) == live_state(
            visitor::enter_all::<RangeQueryVisitor>(s, bkd_tree::ids_of(es)),
            gone,
        ),
    decreases es.len(),
{
    reveal(Seq::filter);
    let ids = bkd_tree::ids_of(es);
    let live = bkd_tree::ids_of(live_entries(es, gone));
    if es.len() > 0 {
        let front = es.drop_last();
        lemma_found_inside(s, front, gone);
        assert(ids.drop_last() =~= bkd_tree::ids_of(front));
        assert(ids.last() == es.last().0);
        let before = visitor::enter_all::<RangeQueryVisitor>(s, bkd_tree::ids_of(front));
        lemma_live_ids_push(before.hits, es.last().0, gone);
        if !gone.contains(es.last().0) {
            assert(live_entries(es, gone) == live_entries(front, gone).push(es.last()));
            assert(live.drop_last() =~= bkd_tree::ids_of(live_entries(front, gone)));
            assert(live.last() == es.last().0);
        } else {
            assert(live_entries(es, gone) == live_entries(front, gone));
        }
    } else {
        assert(ids =~= Seq::empty());
        assert(live =~= Seq::empty());
    }
}

proof fn lemma_found_across(s: RangeState, es: Seq<bkd_tree::Entry>, gone: Set<u64>)
    ensures
        visitor::visit_all::<RangeQueryVisitor>(live_state(s, gone), live_entries(es, gone))
            == live_state(visitor::visit_all::<RangeQueryVisitor>(s, es), gone),
    decreases es.len(),
{
    reveal(Seq::filter);
    if es.len() > 0 {
        let front = es.drop_last();
        lemma_found_across(s, front, gone);
        let before = visitor::visit_all::<RangeQueryVisitor>(s, front);
        lemma_live_ids_push(before.hits, es.last().0, gone);
        lemma_same_range(
            before,
            live_state(before, gone),
            Cell { min: Seq::empty(), max: Seq::empty() },
            es.last().1,
        );
        if !gone.contains(es.last().0) {
            assert(live_entries(es, gone) == live_entries(front, gone).push(es.last()));
            assert(live_entries(es, gone).drop_last() =~= live_entries(front, gone));
        } else {
            assert(live_entries(es, gone) == live_entries(front, gone));
        }
    } else {
        assert(live_entries(es, gone) =~= Seq::empty());
    }
}

proof fn lemma_collected_live(t: Tree, s: RangeState, gone: Set<u64>)
    ensures
        ({
            let end = bkd_tree::collect::<RangeQueryVisitor>(t, s);
            bkd_tree::collect::<RangeQueryVisitor>(live_tree(t, gone), live_state(s, gone)) == (
                live_state(end.0, gone),
                end.1,
            )
        }),
    decreases t,
{
    match t {
        Tree::Leaf { cell, entries } => {
            if let Ok(es) = entries {
                lemma_found_inside(s, es, gone);
            }
        },
        Tree::Node { left_cell, left, right_cell, right } => {
            lemma_collected_live(*left, s, gone);
            lemma_collected_live(*right, bkd_tree::collect::<RangeQueryVisitor>(*left, s).0, gone);
        },
        Tree::Both { first, second } => {
            lemma_collected_live(*first, s, gone);
            lemma_collected_live(
                *second,
                bkd_tree::collect::<RangeQueryVisitor>(*first, s).0,
                gone,
            );
        },
        _ => {},
    }
}

/// A range search without deleted documents finds exactly what the search finds of
/// the documents that are not deleted, and fails as it fails.
pub proof fn lemma_search_live(t: Tree, s: RangeState, gone: Set<u64>)
    ensures
        ({
            let end = bkd_tree::walk::<RangeQueryVisitor>(t, s);
            bkd_tree::walk::<RangeQueryVisitor>(live_tree(t, gone), live_state(s, gone)) == (
                live_state(end.0, gone),
                end.1,
            )
        }),
    decreases t, 0nat,
{
    match t {
        Tree::Leaf { cell, entries } => {
            lemma_same_range(s, live_state(s, gone), cell, cell.min);
            lemma_collected_live(t, s, gone);
            if let Ok(es) = entries {
                lemma_found_across(s, es, gone);
            }
        },
        Tree::Node { left_cell, left, right_cell, right } => {
            lemma_search_child_live(left_cell, *left, s, gone);
            lemma_search_child_live(
                right_cell,
                *right,
                bkd_tree::walk_child::<RangeQueryVisitor>(left_cell, *left, s).0,
                gone,
            );
        },
        Tree::Both { first, second } => {
            lemma_search_live(*first, s, gone);
            lemma_search_live(*second, bkd_tree::walk::<RangeQueryVisitor>(*first, s).0, gone);
        },
        _ => {},
    }
}

proof fn lemma_search_child_live(cell: Cell, t: Tree, s: RangeState, gone: Set<u64>)
    ensures
        ({
            let end = bkd_tree::walk_child::<RangeQueryVisitor>(cell, t, s);
            bkd_tree::walk_child::<RangeQueryVisitor>(
                cell,
                live_tree(t, gone),
                live_state(s, gone),
            ) == (live_state(end.0, gone), end.1)
        }),
    decreases t, 1nat,
{
    lemma_same_range(s, live_state(s, gone), cell, cell.min);
    lemma_collected_live(t, s, gone);
    lemma_search_live(t, s, gone);
}

} // verus!
