//! Cells of space and the visitors that a point tree shows them to.

use vstd::prelude::*;

use crate::floats;

verus! {

/// The bounds of a cell, by the bit patterns of their coordinates.
#[verifier::ext_equal]
pub struct Cell {
    pub min: Seq<u64>,
    pub max: Seq<u64>,
}

/// An axis-aligned bounding box.
#[derive(Debug, PartialEq, Eq)]
pub struct AABB {
    pub min: Vec<u64>,
    pub max: Vec<u64>,
}

impl View for AABB {
    type V = Cell;

    open spec fn view(&self) -> Cell {
        Cell { min: self.min@, max: self.max@ }
    }
}

/// Whether a point lies in a cell, in the total order of patterns.
pub open spec fn in_cell(point: Seq<u64>, cell: Cell) -> bool {
    &&& cell.min.len() == point.len()
    &&& cell.max.len() == point.len()
    &&& forall|d: int|
        0 <= d < point.len() ==> floats::sortable(cell.min[d]) <= #[trigger] floats::sortable(
            point[d],
        ) <= floats::sortable(cell.max[d])
}

/// Whether no coordinate is NaN.
pub open spec fn all_numbers(point: Seq<u64>) -> bool {
    forall|d: int| 0 <= d < point.len() ==> !floats::is_nan(#[trigger] point[d])
}

/// How a cell stands to what a visitor looks for.
#[derive(Debug, Clone, Copy, PartialEq, Eq)]
pub enum CellRelation {
    /// Every point of the cell belongs to it.
    Inside,
    /// No point of the cell belongs to it.
    Outside,
    /// The points have to be looked at.
    Crosses,
}

/// The coordinates of a point, by their bit patterns.
pub type Coordinates = Seq<u64>;

/// What a point tree shows its cells and points to.
pub trait IntersectVisitor: Sized {
    /// What the visitor knows.
    type State;

    /// What this visitor knows.
    spec fn state(&self) -> Self::State;

    /// How a cell stands to what is looked for.
    spec fn relate(s: Self::State, cell: Cell) -> CellRelation;

    /// What is known after a document from a cell inside.
    spec fn entered(s: Self::State, doc_id: u64) -> Self::State;

    /// What is known after a point.
    spec fn visited(s: Self::State, doc_id: u64, point: Coordinates) -> Self::State;

    /// Relates a cell to what is looked for.
    fn compare(&self, cell: &AABB) -> (r: CellRelation)
        ensures
            r == Self::relate(self.state(), cell@),
    ;

    /// Takes a document from a cell inside.
    fn visit_inside(&mut self, doc_id: u64)
        ensures
            final(self).state() == Self::entered(old(self).state(), doc_id),
    ;

    /// Takes a point.
    fn visit(&mut self, doc_id: u64, point: &[u64])
        ensures
            final(self).state() == Self::visited(old(self).state(), doc_id, point@),
    ;

    /// Hands over what the visitor knows; what stays behind is of no use.
    fn hand_over(&mut self) -> (r: Self)
        ensures
            r.state() == old(self).state(),
    ;
}

/// The documents of a cell inside, one after the other.
pub open spec fn enter_all<V: IntersectVisitor>(s: V::State, ids: Seq<u64>) -> V::State
    decreases ids.len(),
{
    if ids.len() == 0 {
        s
    } else {
        V::entered(enter_all::<V>(s, ids.drop_last()), ids.last())
    }
}

/// Points, one after the other.
pub open spec fn visit_all<V: IntersectVisitor>(s: V::State, entries: Seq<(u64, Seq<u64>)>) -> V::State
    decreases entries.len(),
{
    if entries.len() == 0 {
        s
    } else {
        V::visited(
            visit_all::<V>(s, entries.drop_last()),
            entries.last().0,
            entries.last().1,
        )
    }
}

/// A range in each dimension, where no bound leaves the side open, and the
/// documents found in it.
#[verifier::ext_equal]
pub struct RangeState {
    pub mins: Seq<Option<u64>>,
    pub maxs: Seq<Option<u64>>,
    pub include_min: bool,
    pub include_max: bool,
    pub hits: Seq<u64>,
}

/// A range in which nothing has been found.
pub open spec fn range_of(
    mins: Seq<Option<u64>>,
    maxs: Seq<Option<u64>>,
    include_min: bool,
    include_max: bool,
) -> RangeState {
    RangeState { mins, maxs, include_min, include_max, hits: Seq::empty() }
}

/// Whether `v` lies on the right side of a lower bound.
pub open spec fn above(v: u64, min: Option<u64>, inclusive: bool) -> bool {
    match min {
        None => true,
        Some(m) => if inclusive {
            floats::at_most(m, v)
        } else {
            floats::less(m, v)
        },
    }
}

/// Whether `v` lies on the right side of an upper bound.
pub open spec fn below(v: u64, max: Option<u64>, inclusive: bool) -> bool {
    match max {
        None => true,
        Some(m) => if inclusive {
            floats::at_most(v, m)
        } else {
            floats::less(v, m)
        },
    }
}

/// The bound of a dimension; one that is not given leaves the side open.
pub open spec fn bound_of(bounds: Seq<Option<u64>>, d: int) -> Option<u64> {
    if 0 <= d < bounds.len() {
        bounds[d]
    } else {
        None
    }
}

/// Whether a point lies in the range.
pub open spec fn in_range(s: RangeState, point: Seq<u64>) -> bool {
    forall|d: int|
        0 <= d < point.len() ==> above(#[trigger] point[d], bound_of(s.mins, d), s.include_min)
            && below(point[d], bound_of(s.maxs, d), s.include_max)
}

/// Whether a cell misses the range in dimension `d`.
pub open spec fn misses_in(s: RangeState, cell: Cell, d: int) -> bool {
    !above(cell.max[d], bound_of(s.mins, d), s.include_min) || !below(
        cell.min[d],
        bound_of(s.maxs, d),
        s.include_max,
    )
}

/// Whether a cell misses the range in some dimension.
pub open spec fn cell_misses(s: RangeState, cell: Cell) -> bool {
    exists|d: int| 0 <= d < cell.min.len() && d < cell.max.len() && #[trigger] misses_in(s, cell, d)
}

/// How a cell stands to the range: outside where it misses the range in some
/// dimension, inside where both of its corners lie in the range.
pub open spec fn range_relation(s: RangeState, cell: Cell) -> CellRelation {
    if cell_misses(s, cell) {
        CellRelation::Outside
    } else if in_range(s, cell.min) && in_range(s, cell.max) {
        CellRelation::Inside
    } else {
        CellRelation::Crosses
    }
}

/// Collects the documents with a point in a range.
#[derive(Debug)]
pub struct RangeQueryVisitor {
    mins: Vec<Option<u64>>,
    maxs: Vec<Option<u64>>,
    include_min: bool,
    include_max: bool,
    hits: Vec<u64>,
}

fn is_above(v: u64, min: Option<u64>, inclusive: bool) -> (r: bool)
    ensures
        r == above(v, min, inclusive),
{
    match min {
        None => true,
        Some(m) => if inclusive {
            floats::is_at_most(m, v)
        } else {
            floats::is_less(m, v)
        },
    }
}

fn is_below(v: u64, max: Option<u64>, inclusive: bool) -> (r: bool)
    ensures
        r == below(v, max, inclusive),
{
    match max {
        None => true,
        Some(m) => if inclusive {
            floats::is_at_most(v, m)
        } else {
            floats::is_less(v, m)
        },
    }
}

impl RangeQueryVisitor {
    /// A visitor for a range.
    pub fn new(mins: &[Option<u64>], maxs: &[Option<u64>], include_min: bool, include_max: bool)
        -> (r: RangeQueryVisitor)
        ensures
            r.state() == range_of(mins@, maxs@, include_min, include_max),
    {
        let hits: Vec<u64> = Vec::new();
        assert(hits@ =~= Seq::empty());
        RangeQueryVisitor {
            mins: vstd::slice::slice_to_vec(mins),
            maxs: vstd::slice::slice_to_vec(maxs),
            include_min,
            include_max,
            hits,
        }
    }

    /// The documents in the order in which they were found.
    pub fn into_hits(self) -> (r: Vec<u64>)
        ensures
            r@ == self.state().hits,
    {
        self.hits
    }

    fn min_of(&self, d: usize) -> (r: Option<u64>)
        ensures
            r == bound_of(self.mins@, d as int),
    {
        if d < self.mins.len() {
            self.mins[d]
        } else {
            None
        }
    }

    fn max_of(&self, d: usize) -> (r: Option<u64>)
        ensures
            r == bound_of(self.maxs@, d as int),
    {
        if d < self.maxs.len() {
            self.maxs[d]
        } else {
            None
        }
    }

    /// Whether a point lies in the range.
    fn matches(&self, point: &[u64]) -> (r: bool)
        ensures
            r == in_range(self.state(), point@),
    {
        let n: usize = point.len();
        let mut d: usize = 0;
        while d < n
            invariant
                n == point@.len(),
                d <= n,
                forall|k: int|
                    0 <= k < d ==> above(
                        #[trigger] point@[k],
                        bound_of(self.state().mins, k),
                        self.include_min,
                    ) && below(point@[k], bound_of(self.state().maxs, k), self.include_max),
            decreases n - d,
        {
            if !is_above(point[d], self.min_of(d), self.include_min) || !is_below(
                point[d],
                self.max_of(d),
                self.include_max,
            ) {
                return false;
            }
            d = d + 1;
        }
        true
    }

    /// Whether a cell misses the range in some dimension.
    fn misses(&self, cell: &AABB) -> (r: bool)
        ensures
            r == cell_misses(self.state(), cell@),
    {
        let mut d: usize = 0;
        while d < cell.min.len() && d < cell.max.len()
            invariant
                d <= cell.min@.len(),
                d <= cell.max@.len(),
                forall|k: int| 0 <= k < d ==> !#[trigger] misses_in(self.state(), cell@, k),
            decreases cell.min@.len() - d,
        {
            if !is_above(cell.max[d], self.min_of(d), self.include_min) || !is_below(
                cell.min[d],
                self.max_of(d),
                self.include_max,
            ) {
                assert(misses_in(self.state(), cell@, d as int));
                return true;
            }
            assert(!misses_in(self.state(), cell@, d as int));
            d = d + 1;
        }
        false
    }
}

impl IntersectVisitor for RangeQueryVisitor {
    type State = RangeState;

    closed spec fn state(&self) -> RangeState {
        RangeState {
            mins: self.mins@,
            maxs: self.maxs@,
            include_min: self.include_min,
            include_max: self.include_max,
            hits: self.hits@,
        }
    }

    open spec fn relate(s: RangeState, cell: Cell) -> CellRelation {
        range_relation(s, cell)
    }

    open spec fn entered(s: RangeState, doc_id: u64) -> RangeState {
        RangeState { hits: s.hits.push(doc_id), ..s }
    }

    open spec fn visited(s: RangeState, doc_id: u64, point: Seq<u64>) -> RangeState {
        if in_range(s, point) {
            RangeState { hits: s.hits.push(doc_id), ..s }
        } else {
            s
        }
    }

    fn compare(&self, cell: &AABB) -> (r: CellRelation) {
        if self.misses(cell) {
            CellRelation::Outside
        } else if self.matches(cell.min.as_slice()) && self.matches(cell.max.as_slice()) {
            CellRelation::Inside
        } else {
            CellRelation::Crosses
        }
    }

    fn visit_inside(&mut self, doc_id: u64) {
        self.hits.push(doc_id);
    }

    fn visit(&mut self, doc_id: u64, point: &[u64]) {
        if self.matches(point) {
            self.hits.push(doc_id);
        }
    }

    fn hand_over(&mut self) -> (r: RangeQueryVisitor) {
        let mut r = RangeQueryVisitor {
            mins: Vec::new(),
            maxs: Vec::new(),
            include_min: false,
            include_max: false,
            hits: Vec::new(),
        };
        std::mem::swap(self, &mut r);
        r
    }
}

/// A cell outside holds no point of the range, and a cell inside only such
/// points.
pub proof fn lemma_range_relation_sound(s: RangeState, cell: Cell, point: Seq<u64>)
    requires
        in_cell(point, cell),
        all_numbers(cell.min),
        all_numbers(cell.max),
    ensures
        range_relation(s, cell) == CellRelation::Outside ==> !in_range(s, point),
        range_relation(s, cell) == CellRelation::Inside ==> in_range(s, point),
{
    assert forall|d: int| 0 <= d < point.len() implies !floats::is_nan(#[trigger] point[d])
        && floats::rank(cell.min[d]) <= floats::rank(point[d]) <= floats::rank(cell.max[d]) by {
        assert(floats::sortable(cell.min[d]) <= floats::sortable(point[d]) <= floats::sortable(
            cell.max[d],
        ));
        assert(!floats::is_nan(cell.min[d]) && !floats::is_nan(cell.max[d]));
        floats::lemma_between_numbers(cell.min[d], point[d], cell.max[d]);
    }
    if range_relation(s, cell) == CellRelation::Outside {
        let d = choose|d: int|
            0 <= d < cell.min.len() && d < cell.max.len() && #[trigger] misses_in(s, cell, d);
        assert(!floats::is_nan(point[d]));
        assert(!floats::is_nan(cell.min[d]) && !floats::is_nan(cell.max[d]));
        assert(!(above(point[d], bound_of(s.mins, d), s.include_min) && below(
            point[d],
            bound_of(s.maxs, d),
            s.include_max,
        )));
    }
    if range_relation(s, cell) == CellRelation::Inside {
        assert forall|d: int| 0 <= d < point.len() implies above(
            #[trigger] point[d],
            bound_of(s.mins, d),
            s.include_min,
        ) && below(point[d], bound_of(s.maxs, d), s.include_max) by {
            assert(above(cell.min[d], bound_of(s.mins, d), s.include_min));
            assert(below(cell.max[d], bound_of(s.maxs, d), s.include_max));
            assert(!floats::is_nan(point[d]));
        }
    }
}

/// Collects every document with its point.
#[derive(Debug)]
pub struct CollectPointsVisitor {
    pub entries: Vec<(u64, Vec<u64>)>,
}

/// Documents with what their points hold.
pub open spec fn entries_view(s: Seq<(u64, Vec<u64>)>) -> Seq<(u64, Seq<u64>)> {
    s.map_values(|e: (u64, Vec<u64>)| (e.0, e.1@))
}

impl CollectPointsVisitor {
    /// A visitor that has seen nothing.
    pub fn new() -> (r: CollectPointsVisitor)
        ensures
            r.state() == Seq::<(u64, Seq<u64>)>::empty(),
    {
        let r = CollectPointsVisitor { entries: Vec::new() };
        assert(r.state() =~= Seq::<(u64, Seq<u64>)>::empty());
        r
    }
}

impl IntersectVisitor for CollectPointsVisitor {
    type State = Seq<(u64, Seq<u64>)>;

    open spec fn state(&self) -> Seq<(u64, Seq<u64>)> {
        entries_view(self.entries@)
    }

    /// Every cell has to be looked into, since only points carry coordinates.
    open spec fn relate(s: Seq<(u64, Seq<u64>)>, cell: Cell) -> CellRelation {
        CellRelation::Crosses
    }

    open spec fn entered(s: Seq<(u64, Seq<u64>)>, doc_id: u64) -> Seq<(u64, Seq<u64>)> {
        s
    }

    open spec fn visited(s: Seq<(u64, Seq<u64>)>, doc_id: u64, point: Seq<u64>) -> Seq<
        (u64, Seq<u64>),
    > {
        s.push((doc_id, point))
    }

    fn compare(&self, cell: &AABB) -> (r: CellRelation) {
        CellRelation::Crosses
    }

    fn visit_inside(&mut self, doc_id: u64) {
    }

    fn visit(&mut self, doc_id: u64, point: &[u64]) {
        let ghost before = self.state();
        self.entries.push((doc_id, vstd::slice::slice_to_vec(point)));
        assert(self.state() =~= before.push((doc_id, point@)));
    }

    fn hand_over(&mut self) -> (r: CollectPointsVisitor) {
        let mut r = CollectPointsVisitor::new();
        std::mem::swap(self, &mut r);
        r
    }
}

} // verus!
