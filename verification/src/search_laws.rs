//! What a search for points finds.

use vstd::arithmetic::power2::*;
use vstd::prelude::*;

use crate::bkd_tree;
use crate::bkd_tree::{BKDReader, BKDTree, Entry, Tree};
use crate::error::LaurusError;
use crate::floats;
use crate::live_tree;
use crate::live_tree::{DeletionFilteringBKDTree, MultiSegmentBKDTree};
use crate::sort;
use crate::visitor;
use crate::visitor::{Cell, CellRelation, RangeQueryVisitor, RangeState};

verus! {

// ---------------------------------------------------------------------------
// The number line
// ---------------------------------------------------------------------------

/// A number as a multiple of the least positive one, by its pattern without a sign: eleven
/// bits of exponent over fifty-two of fraction. Infinity is taken as what would follow
/// the largest finite number.
pub open spec fn multiple(magnitude: int) -> int {
    let exponent = magnitude / 0x10_0000_0000_0000;
    let fraction = magnitude % 0x10_0000_0000_0000;
    if exponent == 0 {
        fraction
    } else {
        (0x10_0000_0000_0000 + fraction) * pow2((exponent - 1) as nat)
    }
}

/// The number of a pattern as a multiple of the least positive one.
pub open spec fn number(bits: u64) -> int {
    if bits < 0x8000_0000_0000_0000 {
        multiple(bits as int)
    } else {
        -multiple(bits - 0x8000_0000_0000_0000)
    }
}

proof fn lemma_multiple_ascends(a: int, b: int)
    requires
        0 <= a < b,
    ensures
        0 <= multiple(a) < multiple(b),
{
    let unit: int = 0x10_0000_0000_0000;
    let (ea, fa) = (a / unit, a % unit);
    let (eb, fb) = (b / unit, b % unit);
    assert(ea <= eb);
    if eb > 0 {
        lemma_pow2_pos((eb - 1) as nat);
    }
    if ea > 0 {
        lemma_pow2_pos((ea - 1) as nat);
    }
    if ea == eb {
        assert(fa < fb);
        if ea > 0 {
            let p = pow2((ea - 1) as nat) as int;
            assert(0 <= (unit + fa) * p < (unit + fb) * p) by (nonlinear_arith)
                requires
                    0 <= fa < fb,
                    p > 0,
                    unit > 0,
            ;
        }
    } else if ea == 0 {
        let p = pow2((eb - 1) as nat) as int;
        assert((unit + fb) * p >= unit) by (nonlinear_arith)
            requires
                fb >= 0,
                p >= 1,
                unit > 0,
        ;
    } else {
        let p = pow2((ea - 1) as nat) as int;
        let q = pow2((eb - 1) as nat) as int;
        lemma_pow2_unfold(ea as nat);
        if ea < eb - 1 {
            lemma_pow2_strictly_increases(ea as nat, (eb - 1) as nat);
        }
        assert(q >= 2 * p);
        assert(0 <= (unit + fa) * p < (unit + fb) * q) by (nonlinear_arith)
            requires
                0 <= fa < unit,
                fb >= 0,
                p > 0,
                q >= 2 * p,
        ;
    }
}

/// Numbers lie on the number line as their ranks do.
pub proof fn lemma_rank_is_order(a: u64, b: u64)
    requires
        !floats::is_nan(a),
        !floats::is_nan(b),
    ensures
        floats::rank(a) < floats::rank(b) <==> number(a) < number(b),
        floats::rank(a) == floats::rank(b) <==> number(a) == number(b),
{
    let sign: u64 = 0x8000_0000_0000_0000;
    let x: int = if a < sign {
        a as int
    } else {
        a - sign
    };
    let y: int = if b < sign {
        b as int
    } else {
        b - sign
    };
    assert(multiple(0) == 0);
    if x < y {
        lemma_multiple_ascends(x, y);
    }
    if y < x {
        lemma_multiple_ascends(y, x);
    }
    if x > 0 {
        lemma_multiple_ascends(0, x);
    }
    if y > 0 {
        lemma_multiple_ascends(0, y);
    }
}

/// A pattern is not a number where all bits of the exponent are set and one of the
/// fraction is.
pub proof fn lemma_not_a_number(bits: u64)
    ensures
        floats::is_nan(bits) <==> (bits as int / 0x10_0000_0000_0000) % 0x800 == 0x7ff && bits as int
            % 0x10_0000_0000_0000 != 0,
{
}

// ---------------------------------------------------------------------------
// Ranges
// ---------------------------------------------------------------------------

/// Coordinate `d` of point `i` in a flat buffer.
pub open spec fn coordinate(points: Seq<u64>, num_dims: u32, i: int, d: int) -> u64 {
    points[i * num_dims + d]
}

/// Whether a number lies above a bound, or on it where it is included.
pub open spec fn reaches(bound: Option<u64>, included: bool, v: u64) -> bool {
    match bound {
        None => true,
        Some(m) => !floats::is_nan(m) && (number(m) < number(v) || included && number(m) == number(
            v,
        )),
    }
}

/// Whether a number lies below a bound, or on it where it is included.
pub open spec fn keeps_below(bound: Option<u64>, included: bool, v: u64) -> bool {
    match bound {
        None => true,
        Some(m) => !floats::is_nan(m) && (number(v) < number(m) || included && number(v) == number(
            m,
        )),
    }
}

/// Whether a coordinate lies between its bounds. A dimension without a bound is open.
pub open spec fn coordinate_fits(
    mins: Seq<Option<u64>>,
    maxs: Seq<Option<u64>>,
    include_min: bool,
    include_max: bool,
    d: int,
    v: u64,
) -> bool {
    &&& d < mins.len() ==> reaches(mins[d], include_min, v)
    &&& d < maxs.len() ==> keeps_below(maxs[d], include_max, v)
}

/// Whether every coordinate of point `i` lies between its bounds.
pub open spec fn point_fits(
    points: Seq<u64>,
    num_dims: u32,
    i: int,
    mins: Seq<Option<u64>>,
    maxs: Seq<Option<u64>>,
    include_min: bool,
    include_max: bool,
) -> bool {
    forall|d: int|
        0 <= d < num_dims ==> coordinate_fits(
            mins,
            maxs,
            include_min,
            include_max,
            d,
            #[trigger] coordinate(points, num_dims, i, d),
        )
}

/// Whether some point of a document lies in the range.
pub open spec fn document_fits(
    points: Seq<u64>,
    doc_ids: Seq<u64>,
    num_dims: u32,
    mins: Seq<Option<u64>>,
    maxs: Seq<Option<u64>>,
    include_min: bool,
    include_max: bool,
    id: u64,
) -> bool {
    exists|i: int|
        0 <= i < doc_ids.len() && (#[trigger] doc_ids[i]) == id && point_fits(
            points,
            num_dims,
            i,
            mins,
            maxs,
            include_min,
            include_max,
        )
}

proof fn lemma_fits_in_range(
    points: Seq<u64>,
    doc_ids: Seq<u64>,
    num_dims: u32,
    i: int,
    s: RangeState,
)
    requires
        0 <= i < doc_ids.len(),
        points.len() == doc_ids.len() * num_dims,
        forall|k: int| 0 <= k < points.len() ==> !floats::is_nan(#[trigger] points[k]),
    ensures
        visitor::in_range(s, bkd_tree::entry_of(points, doc_ids, num_dims as int, i).1)
            <==> point_fits(
            points,
            num_dims,
            i,
            s.mins,
            s.maxs,
            s.include_min,
            s.include_max,
        ),
{
    let point = bkd_tree::entry_of(points, doc_ids, num_dims as int, i).1;
    assert(0 <= i * num_dims && i * num_dims + num_dims <= doc_ids.len() * num_dims)
        by (nonlinear_arith)
        requires
            0 <= i < doc_ids.len(),
    ;
    assert(point.len() == num_dims);
    assert forall|d: int| 0 <= d < num_dims implies #[trigger] point[d] == coordinate(
        points,
        num_dims,
        i,
        d,
    ) && (visitor::above(point[d], visitor::bound_of(s.mins, d), s.include_min) && visitor::below(
        point[d],
        visitor::bound_of(s.maxs, d),
        s.include_max,
    ) <==> coordinate_fits(s.mins, s.maxs, s.include_min, s.include_max, d, point[d])) by {
        let v = point[d];
        assert(v == points[i * num_dims + d]);
        if let Some(m) = visitor::bound_of(s.mins, d) {
            if !floats::is_nan(m) {
                lemma_rank_is_order(m, v);
            }
        }
        if let Some(m) = visitor::bound_of(s.maxs, d) {
            if !floats::is_nan(m) {
                lemma_rank_is_order(v, m);
            }
        }
    }
    if visitor::in_range(s, point) {
        assert forall|d: int| 0 <= d < num_dims implies coordinate_fits(
            s.mins,
            s.maxs,
            s.include_min,
            s.include_max,
            d,
            #[trigger] coordinate(points, num_dims, i, d),
        ) by {
            assert(point[d] == coordinate(points, num_dims, i, d));
        }
    }
    if point_fits(points, num_dims, i, s.mins, s.maxs, s.include_min, s.include_max) {
        assert forall|d: int| 0 <= d < point.len() implies visitor::above(
            #[trigger] point[d],
            visitor::bound_of(s.mins, d),
            s.include_min,
        ) && visitor::below(point[d], visitor::bound_of(s.maxs, d), s.include_max) by {
            assert(point[d] == coordinate(points, num_dims, i, d));
        }
    }
}

/// Buffers are taken exactly where they hold a number for each coordinate of each document,
/// no more points than can be numbered, and, if there is a point, blocks that hold one.
pub proof fn lemma_buffers_are_taken(
    points: Seq<u64>,
    doc_ids: Seq<u64>,
    num_dims: u32,
    block_size: usize,
)
    ensures
        bkd_tree::refusal(points, doc_ids, num_dims, block_size) is None <==> {
            &&& points.len() == doc_ids.len() * num_dims
            &&& points.len() <= usize::MAX
            &&& doc_ids.len() <= u32::MAX
            &&& forall|k: int| 0 <= k < points.len() ==> !floats::is_nan(#[trigger] points[k])
            &&& doc_ids.len() > 0 ==> block_size > 0
        },
{
    bkd_tree::lemma_no_nan(points, 0);
    if doc_ids.len() == 0 {
        assert(doc_ids.len() * num_dims == 0) by (nonlinear_arith)
            requires
                doc_ids.len() == 0,
        ;
    }
}

/// A search of a file finds exactly the documents that were written with a point in the
/// range, each once and in ascending order: every coordinate lies between the bounds on
/// the number line, and on a bound only where that is included.
pub proof fn lemma_search_finds_what_was_written<F: Fn(u64, u64) -> u64>(
    subtract: F,
    points: Seq<u64>,
    doc_ids: Seq<u64>,
    num_dims: u32,
    block_size: usize,
    file: Vec<u8>,
    opened: Result<BKDReader, LaurusError>,
    mins: &[Option<u64>],
    maxs: &[Option<u64>],
    include_min: bool,
    include_max: bool,
    r: Result<Vec<u64>, LaurusError>,
)
    requires
        bkd_tree::refusal(points, doc_ids, num_dims, block_size) is None,
        bkd_tree::is_file_of(subtract, points, doc_ids, num_dims, block_size, file@),
        bkd_tree::states_block_size(block_size, doc_ids.len()),
        call_ensures(BKDReader::open, (file,), opened),
        opened is Ok ==> call_ensures(
            BKDReader::range_search,
            (&opened->Ok_0, mins, maxs, include_min, include_max),
            r,
        ),
    ensures
        opened is Ok,
        r is Ok,
        forall|i: int, j: int|
            0 <= i < j < r->Ok_0@.len() ==> (#[trigger] r->Ok_0@[i]) < (#[trigger] r->Ok_0@[j]),
        forall|id: u64| #[trigger]
            r->Ok_0@.contains(id) <==> document_fits(
                points,
                doc_ids,
                num_dims,
                mins@,
                maxs@,
                include_min,
                include_max,
                id,
            ),
{
    let s = visitor::range_of(mins@, maxs@, include_min, include_max);
    let es = bkd_tree::entries_of(points, doc_ids, num_dims as int);
    lemma_buffers_are_taken(points, doc_ids, num_dims, block_size);
    bkd_tree::lemma_written_is_found(
        subtract,
        points,
        doc_ids,
        num_dims,
        block_size,
        file@,
        s,
    );
    let end = bkd_tree::walk::<RangeQueryVisitor>(opened->Ok_0.tree(), s);
    assert forall|id: u64| #[trigger] r->Ok_0@.contains(id) <==> document_fits(
        points,
        doc_ids,
        num_dims,
        mins@,
        maxs@,
        include_min,
        include_max,
        id,
    ) by {
        assert(r->Ok_0@.contains(id) <==> end.0.hits.contains(id));
        if bkd_tree::has_point(es, s, id) {
            let e = choose|e: Entry| #[trigger]
                es.contains(e) && e.0 == id && visitor::in_range(s, e.1);
            let i = choose|i: int| 0 <= i < es.len() && es[i] == e;
            lemma_fits_in_range(points, doc_ids, num_dims, i, s);
            assert(doc_ids[i] == id);
        }
        if document_fits(
            points,
            doc_ids,
            num_dims,
            mins@,
            maxs@,
            include_min,
            include_max,
            id,
        ) {
            let i = choose|i: int|
                0 <= i < doc_ids.len() && (#[trigger] doc_ids[i]) == id && point_fits(
                    points,
                    num_dims,
                    i,
                    mins@,
                    maxs@,
                    include_min,
                    include_max,
                );
            lemma_fits_in_range(points, doc_ids, num_dims, i, s);
            assert(es[i].0 == id);
            assert(es.contains(es[i]));
        }
    }
}

proof fn lemma_attained(es: Seq<Entry>, d: int, low: u64, high: u64)
    ensures
        bkd_tree::least(es, d, low) == low || exists|i: int|
            0 <= i < es.len() && (#[trigger] es[i]).1[d] == bkd_tree::least(es, d, low),
        bkd_tree::greatest(es, d, high) == high || exists|i: int|
            0 <= i < es.len() && (#[trigger] es[i]).1[d] == bkd_tree::greatest(es, d, high),
    decreases es.len(),
{
    if es.len() > 0 {
        let front = es.drop_last();
        let last = es.len() - 1;
        lemma_attained(front, d, low, high);
        let a = bkd_tree::least(front, d, low);
        let b = bkd_tree::greatest(front, d, high);
        assert(es[last] == es.last());
        if bkd_tree::least(es, d, low) == a && a != low {
            let i = choose|i: int| 0 <= i < front.len() && (#[trigger] front[i]).1[d] == a;
            assert(es[i].1[d] == a);
        }
        if bkd_tree::greatest(es, d, high) == b && b != high {
            let i = choose|i: int| 0 <= i < front.len() && (#[trigger] front[i]).1[d] == b;
            assert(es[i].1[d] == b);
        }
    }
}

/// Whether some point has this coordinate.
pub open spec fn has_coordinate(
    points: Seq<u64>,
    count: nat,
    num_dims: u32,
    d: int,
    v: u64,
) -> bool {
    exists|i: int| 0 <= i < count && #[trigger] coordinate(points, num_dims, i, d) == v
}

/// What a file says of the values of a dimension: how many points were written, and bounds
/// that no coordinate leaves on the number line. A bound is the coordinate of some point,
/// unless all coordinates lie beyond the finite numbers on that side.
pub proof fn lemma_range_of_what_was_written<F: Fn(u64, u64) -> u64>(
    subtract: F,
    points: Seq<u64>,
    doc_ids: Seq<u64>,
    num_dims: u32,
    block_size: usize,
    file: Vec<u8>,
    opened: Result<BKDReader, LaurusError>,
    dim: usize,
    r: Option<(u64, u64, u64)>,
)
    requires
        bkd_tree::refusal(points, doc_ids, num_dims, block_size) is None,
        bkd_tree::is_file_of(subtract, points, doc_ids, num_dims, block_size, file@),
        bkd_tree::states_block_size(block_size, doc_ids.len()),
        call_ensures(BKDReader::open, (file,), opened),
        opened is Ok ==> call_ensures(BKDReader::value_range, (&opened->Ok_0, dim), r),
    ensures
        opened is Ok,
        r is Some <==> doc_ids.len() > 0 && dim < num_dims,
        r matches Some((lo, hi, count)) ==> {
            &&& count == doc_ids.len()
            &&& forall|i: int|
                0 <= i < doc_ids.len() ==> number(lo) <= number(
                    #[trigger] coordinate(points, num_dims, i, dim as int),
                ) <= number(hi)
            &&& has_coordinate(points, doc_ids.len(), num_dims, dim as int, lo) || lo
                == floats::MAX_FINITE
            &&& has_coordinate(points, doc_ids.len(), num_dims, dim as int, hi) || hi
                == floats::MIN_FINITE
        },
{
    let es = bkd_tree::entries_of(points, doc_ids, num_dims as int);
    lemma_buffers_are_taken(points, doc_ids, num_dims, block_size);
    if doc_ids.len() == 0 {
        bkd_tree::lemma_empty_file_round_trip(num_dims, block_size as u32);
    } else {
        let plan = bkd_tree::lemma_written_tree(
            subtract,
            points,
            doc_ids,
            num_dims,
            block_size,
            file@,
        );
        if dim < num_dims {
            let d = dim as int;
            let (low, high) = (floats::MAX_FINITE, floats::MIN_FINITE);
            let lo = bkd_tree::least(es, d, low);
            let hi = bkd_tree::greatest(es, d, high);
            assert(r == Some((lo, hi, doc_ids.len() as u64)));
            assert forall|i: int| 0 <= i < es.len() implies (#[trigger] es[i]).1[d] == coordinate(
                points,
                num_dims,
                i,
                d,
            ) && !floats::is_nan(es[i].1[d]) by {
                assert(0 <= i * num_dims && i * num_dims + num_dims <= doc_ids.len() * num_dims)
                    by (nonlinear_arith)
                    requires
                        0 <= i < doc_ids.len(),
                ;
                assert(points[i * num_dims + d] == es[i].1[d]);
            }
            lemma_attained(es, d, low, high);
            if lo != low {
                let i = choose|i: int| 0 <= i < es.len() && (#[trigger] es[i]).1[d] == lo;
                assert(coordinate(points, num_dims, i, d) == lo);
            }
            if hi != high {
                let i = choose|i: int| 0 <= i < es.len() && (#[trigger] es[i]).1[d] == hi;
                assert(coordinate(points, num_dims, i, d) == hi);
            }
            assert(!floats::is_nan(lo) && !floats::is_nan(hi));
            assert forall|i: int| 0 <= i < doc_ids.len() implies number(lo) <= number(
                #[trigger] coordinate(points, num_dims, i, d),
            ) <= number(hi) by {
                let v = coordinate(points, num_dims, i, d);
                assert(es[i].1[d] == v);
                bkd_tree::lemma_least(es, d, low, high, i);
                floats::lemma_sortable_order(lo, v);
                floats::lemma_sortable_order(v, hi);
                floats::lemma_total_order_is_numeric(lo, v);
                floats::lemma_total_order_is_numeric(v, hi);
                lemma_rank_is_order(lo, v);
                lemma_rank_is_order(v, hi);
            }
        }
    }
}

// ---------------------------------------------------------------------------
// Several trees, and deleted documents
// ---------------------------------------------------------------------------

/// A search that had found something before.
spec fn after_hits(before: Seq<u64>, s: RangeState) -> RangeState {
    RangeState { hits: before + s.hits, ..s }
}

proof fn lemma_enter_adds(before: Seq<u64>, s: RangeState, ids: Seq<u64>)
    ensures
        visitor::enter_all::<RangeQueryVisitor>(after_hits(before, s), ids) == after_hits(
            before,
            visitor::enter_all::<RangeQueryVisitor>(s, ids),
        ),
    decreases ids.len(),
{
    if ids.len() > 0 {
        lemma_enter_adds(before, s, ids.drop_last());
        let t = visitor::enter_all::<RangeQueryVisitor>(s, ids.drop_last());
        assert((before + t.hits).push(ids.last()) =~= before + t.hits.push(ids.last()));
    }
}

proof fn lemma_same_question(s: RangeState, t: RangeState, cell: Cell, point: Seq<u64>)
    requires
        s.mins == t.mins,
        s.maxs == t.maxs,
        s.include_min == t.include_min,
        s.include_max == t.include_max,
    ensures
        visitor::range_relation(s, cell) == visitor::range_relation(t, cell),
        visitor::in_range(s, point) == visitor::in_range(t, point),
{
    assert forall|d: int| visitor::misses_in(s, cell, d) == #[trigger] visitor::misses_in(
        t,
        cell,
        d,
    ) by {}
    if visitor::cell_misses(s, cell) {
        let d = choose|d: int|
            0 <= d < cell.min.len() && d < cell.max.len() && #[trigger] visitor::misses_in(
                s,
                cell,
                d,
            );
        assert(visitor::misses_in(t, cell, d));
    }
}

proof fn lemma_visit_adds(before: Seq<u64>, s: RangeState, es: Seq<Entry>)
    ensures
        visitor::visit_all::<RangeQueryVisitor>(after_hits(before, s), es) == after_hits(
            before,
            visitor::visit_all::<RangeQueryVisitor>(s, es),
        ),
    decreases es.len(),
{
    if es.len() > 0 {
        lemma_visit_adds(before, s, es.drop_last());
        let t = visitor::visit_all::<RangeQueryVisitor>(s, es.drop_last());
        lemma_same_question(
            t,
            after_hits(before, t),
            Cell { min: Seq::empty(), max: Seq::empty() },
            es.last().1,
        );
        assert((before + t.hits).push(es.last().0) =~= before + t.hits.push(es.last().0));
    }
}

proof fn lemma_collect_adds(before: Seq<u64>, t: Tree, s: RangeState)
    ensures
        bkd_tree::collect::<RangeQueryVisitor>(t, after_hits(before, s)) == (
            after_hits(before, bkd_tree::collect::<RangeQueryVisitor>(t, s).0),
            bkd_tree::collect::<RangeQueryVisitor>(t, s).1,
        ),
    decreases t,
{
    match t {
        Tree::Leaf { cell, entries } => {
            if let Ok(es) = entries {
                lemma_enter_adds(before, s, bkd_tree::ids_of(es));
            }
        },
        Tree::Node { left_cell, left, right_cell, right } => {
            lemma_collect_adds(before, *left, s);
            lemma_collect_adds(
                before,
                *right,
                bkd_tree::collect::<RangeQueryVisitor>(*left, s).0,
            );
        },
        Tree::Both { first, second } => {
            lemma_collect_adds(before, *first, s);
            lemma_collect_adds(
                before,
                *second,
                bkd_tree::collect::<RangeQueryVisitor>(*first, s).0,
            );
        },
        _ => {},
    }
}

/// What was found before has no effect on what a walk finds.
proof fn lemma_walk_adds(before: Seq<u64>, t: Tree, s: RangeState)
    ensures
        bkd_tree::walk::<RangeQueryVisitor>(t, after_hits(before, s)) == (
            after_hits(before, bkd_tree::walk::<RangeQueryVisitor>(t, s).0),
            bkd_tree::walk::<RangeQueryVisitor>(t, s).1,
        ),
    decreases t, 0nat,
{
    match t {
        Tree::Leaf { cell, entries } => {
            lemma_same_question(s, after_hits(before, s), cell, cell.min);
            lemma_collect_adds(before, t, s);
            if let Ok(es) = entries {
                lemma_visit_adds(before, s, es);
            }
        },
        Tree::Node { left_cell, left, right_cell, right } => {
            lemma_walk_child_adds(before, left_cell, *left, s);
            lemma_walk_child_adds(
                before,
                right_cell,
                *right,
                bkd_tree::walk_child::<RangeQueryVisitor>(left_cell, *left, s).0,
            );
        },
        Tree::Both { first, second } => {
            lemma_walk_adds(before, *first, s);
            lemma_walk_adds(before, *second, bkd_tree::walk::<RangeQueryVisitor>(*first, s).0);
        },
        _ => {},
    }
}

proof fn lemma_walk_child_adds(before: Seq<u64>, cell: Cell, t: Tree, s: RangeState)
    ensures
        bkd_tree::walk_child::<RangeQueryVisitor>(cell, t, after_hits(before, s)) == (
            after_hits(before, bkd_tree::walk_child::<RangeQueryVisitor>(cell, t, s).0),
            bkd_tree::walk_child::<RangeQueryVisitor>(cell, t, s).1,
        ),
    decreases t, 1nat,
{
    lemma_same_question(s, after_hits(before, s), cell, cell.min);
    lemma_collect_adds(before, t, s);
    lemma_walk_adds(before, t, s);
}

/// A walk does not change what is looked for.
proof fn lemma_walk_keeps_range(t: Tree, s: RangeState)
    ensures
        ({
            let end = bkd_tree::walk::<RangeQueryVisitor>(t, s).0;
            end == RangeState { hits: end.hits, ..s }
        }),
        ({
            let end = bkd_tree::collect::<RangeQueryVisitor>(t, s).0;
            end == RangeState { hits: end.hits, ..s }
        }),
    decreases t,
{
    match t {
        Tree::Leaf { cell, entries } => {
            if let Ok(es) = entries {
                lemma_steps_keep_range(s, es);
            }
        },
        Tree::Node { left_cell, left, right_cell, right } => {
            lemma_walk_keeps_range(*left, s);
            let w = bkd_tree::walk_child::<RangeQueryVisitor>(left_cell, *left, s).0;
            lemma_walk_keeps_range(*right, w);
            assert(w == RangeState { hits: w.hits, ..s });
            let end = bkd_tree::walk_child::<RangeQueryVisitor>(right_cell, *right, w).0;
            assert(end == RangeState { hits: end.hits, ..w });
            lemma_walk_keeps_range(*right, bkd_tree::collect::<RangeQueryVisitor>(*left, s).0);
        },
        Tree::Both { first, second } => {
            lemma_walk_keeps_range(*first, s);
            lemma_walk_keeps_range(*second, bkd_tree::walk::<RangeQueryVisitor>(*first, s).0);
            lemma_walk_keeps_range(*second, bkd_tree::collect::<RangeQueryVisitor>(*first, s).0);
        },
        _ => {},
    }
}

proof fn lemma_steps_keep_range(s: RangeState, es: Seq<Entry>)
    ensures
        ({
            let end = visitor::visit_all::<RangeQueryVisitor>(s, es);
            end == RangeState { hits: end.hits, ..s }
        }),
        ({
            let end = visitor::enter_all::<RangeQueryVisitor>(s, bkd_tree::ids_of(es));
            end == RangeState { hits: end.hits, ..s }
        }),
    decreases es.len(),
{
    if es.len() > 0 {
        lemma_steps_keep_range(s, es.drop_last());
        assert(bkd_tree::ids_of(es).drop_last() =~= bkd_tree::ids_of(es.drop_last()));
    }
}

/// Whether one of the first `n` answers has a document.
pub open spec fn some_has(rs: Seq<Result<Vec<u64>, LaurusError>>, n: int, id: u64) -> bool {
    exists|i: int| 0 <= i < n && (#[trigger] rs[i]) is Ok && rs[i]->Ok_0@.contains(id)
}

/// What a walk of trees one behind another finds is what searches of them find.
pub proof fn lemma_chained_hits<T: BKDTree>(
    trees: Seq<&T>,
    s: RangeState,
    rs: Seq<Result<Vec<u64>, LaurusError>>,
    n: int,
)
    requires
        0 <= n <= trees.len(),
        n <= rs.len(),
        s.hits == Seq::<u64>::empty(),
        forall|i: int|
            0 <= i < n ==> {
                let end = bkd_tree::walk::<RangeQueryVisitor>((#[trigger] trees[i]).tree(), s);
                &&& end.1 is Ok
                &&& rs[i] is Ok
                &&& sort::ascending_set_of(rs[i]->Ok_0@, end.0.hits)
            },
    ensures
        ({
            let end = bkd_tree::walk::<RangeQueryVisitor>(live_tree::chained(trees, n), s);
            &&& end.1 is Ok
            &&& end.0 == RangeState { hits: end.0.hits, ..s }
            &&& forall|id: u64| #[trigger] end.0.hits.contains(id) <==> some_has(rs, n, id)
        }),
    decreases n,
{
    if n > 0 {
        lemma_chained_hits(trees, s, rs, n - 1);
        let first = bkd_tree::walk::<RangeQueryVisitor>(live_tree::chained(trees, n - 1), s);
        let t = trees[n - 1].tree();
        let alone = bkd_tree::walk::<RangeQueryVisitor>(t, s);
        let end = bkd_tree::walk::<RangeQueryVisitor>(live_tree::chained(trees, n), s);
        assert(first.0 =~= after_hits(first.0.hits, s)) by {
            assert(first.0.hits + s.hits =~= first.0.hits);
        }
        lemma_walk_adds(first.0.hits, t, s);
        lemma_walk_keeps_range(t, s);
        assert(end == bkd_tree::walk::<RangeQueryVisitor>(t, first.0));
        assert(end.0.hits =~= first.0.hits + alone.0.hits);
        assert forall|id: u64| #[trigger] end.0.hits.contains(id) <==> some_has(rs, n, id) by {
            vstd::seq_lib::lemma_seq_concat_contains_all_elements(
                first.0.hits,
                alone.0.hits,
                id,
            );
            assert(first.0.hits.contains(id) <==> some_has(rs, n - 1, id));
            assert(rs[n - 1]->Ok_0@.contains(id) <==> alone.0.hits.contains(id));
            if some_has(rs, n, id) {
                let i = choose|i: int|
                    0 <= i < n && (#[trigger] rs[i]) is Ok && rs[i]->Ok_0@.contains(id);
                assert(i < n - 1 ==> some_has(rs, n - 1, id));
            }
        }
    } else {
        assert forall|id: u64| !s.hits.contains(id) by {}
    }
}

/// A search over several segments finds exactly the documents that a search of one of
/// them finds.
pub proof fn lemma_search_of_several<T: BKDTree>(
    several: MultiSegmentBKDTree<T>,
    mins: &[Option<u64>],
    maxs: &[Option<u64>],
    include_min: bool,
    include_max: bool,
    rs: Seq<Result<Vec<u64>, LaurusError>>,
    r: Result<Vec<u64>, LaurusError>,
)
    requires
        rs.len() == several.trees@.len(),
        forall|i: int|
            0 <= i < rs.len() ==> (#[trigger] rs[i]) is Ok && call_ensures(
                T::range_search,
                (several.trees@[i], mins, maxs, include_min, include_max),
                rs[i],
            ),
        call_ensures(
            MultiSegmentBKDTree::<T>::range_search,
            (&several, mins, maxs, include_min, include_max),
            r,
        ),
    ensures
        r is Ok,
        forall|id: u64| #[trigger]
            r->Ok_0@.contains(id) <==> exists|i: int|
                0 <= i < rs.len() && (#[trigger] rs[i])->Ok_0@.contains(id),
{
    let s = visitor::range_of(mins@, maxs@, include_min, include_max);
    let trees = several.trees@;
    assert forall|i: int| 0 <= i < trees.len() implies {
        let end = bkd_tree::walk::<RangeQueryVisitor>((#[trigger] trees[i]).tree(), s);
        &&& end.1 is Ok
        &&& rs[i] is Ok
        &&& sort::ascending_set_of(rs[i]->Ok_0@, end.0.hits)
    } by {
        assert(rs[i] is Ok);
    }
    lemma_chained_hits(trees, s, rs, trees.len() as int);
    let end = bkd_tree::walk::<RangeQueryVisitor>(several.tree(), s);
    assert forall|id: u64| #[trigger] r->Ok_0@.contains(id) <==> exists|i: int|
        0 <= i < rs.len() && (#[trigger] rs[i])->Ok_0@.contains(id) by {
        assert(r->Ok_0@.contains(id) <==> end.0.hits.contains(id));
        assert(end.0.hits.contains(id) <==> some_has(rs, rs.len() as int, id));
    }
}

/// A search behind a filter finds exactly the documents that the search finds without it
/// and that no segment marks as deleted in its range of ids.
pub proof fn lemma_search_without_deleted<T: BKDTree>(
    filtered: DeletionFilteringBKDTree<T>,
    mins: &[Option<u64>],
    maxs: &[Option<u64>],
    include_min: bool,
    include_max: bool,
    all: Result<Vec<u64>, LaurusError>,
    r: Result<Vec<u64>, LaurusError>,
)
    requires
        call_ensures(
            T::range_search,
            (&filtered.inner, mins, maxs, include_min, include_max),
            all,
        ),
        call_ensures(
            DeletionFilteringBKDTree::<T>::range_search,
            (&filtered, mins, maxs, include_min, include_max),
            r,
        ),
    ensures
        match all {
            Err(e) => r == Err::<Vec<u64>, LaurusError>(e),
            Ok(found) => r is Ok && forall|id: u64| #[trigger]
                r->Ok_0@.contains(id) <==> found@.contains(id) && !exists|i: int|
                    0 <= i < filtered.snapshot.bitmaps@.len() && (
                    #[trigger] filtered.snapshot.bitmaps@[i]).0 <= id
                        <= filtered.snapshot.bitmaps@[i].1
                        && filtered.snapshot.bitmaps@[i].2.marked().contains(id),
        },
{
    let s = visitor::range_of(mins@, maxs@, include_min, include_max);
    let gone = filtered.snapshot.gone();
    let t = filtered.inner.tree();
    live_tree::lemma_search_live(t, s, gone);
    reveal(Seq::filter);
    assert(live_tree::live_state(s, gone) =~= s) by {
        assert(live_tree::live_ids(s.hits, gone) =~= s.hits);
    }
    let whole = bkd_tree::walk::<RangeQueryVisitor>(t, s);
    let end = bkd_tree::walk::<RangeQueryVisitor>(filtered.tree(), s);
    if all is Ok {
        assert forall|id: u64| #[trigger] r->Ok_0@.contains(id) <==> all->Ok_0@.contains(id)
            && !gone.contains(id) by {
            let keep = |x: u64| !gone.contains(x);
            let hits = whole.0.hits;
            assert(end.0.hits == hits.filter(keep));
            if hits.filter(keep).contains(id) {
                hits.lemma_filter_contains_rev(keep, id);
                let i = choose|i: int|
                    0 <= i < hits.filter(keep).len() && hits.filter(keep)[i] == id;
                hits.lemma_filter_pred(keep, i);
            }
            if hits.contains(id) && !gone.contains(id) {
                let i = choose|i: int| 0 <= i < hits.len() && hits[i] == id;
                hits.lemma_filter_contains(keep, i);
            }
        }
        assert forall|id: u64| gone.contains(id) <==> exists|i: int|
            0 <= i < filtered.snapshot.bitmaps@.len() && (
            #[trigger] filtered.snapshot.bitmaps@[i]).0 <= id <= filtered.snapshot.bitmaps@[i].1
                && filtered.snapshot.bitmaps@[i].2.marked().contains(id) by {}
    }
}

} // verus!
