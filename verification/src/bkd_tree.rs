//! Point trees for range and shape queries.
//!
//! A tree splits points at the median of one dimension after the other until a
//! leaf holds at most a block of them. Every node keeps the bounds of its
//! children, so that a query can skip or take whole subtrees.
//!
//! # The file
//!
//! All integers have their least significant byte first; coordinates are 64-bit
//! patterns.
//!
//! ```text
//! header:
//!   magic (4) | version (4) | dimensions (4) | bytes per dimension (4)
//!   | points (8) | leaves (8) | block size (4) | least and greatest coordinates
//!   | start of the index (8) | root (8)
//! leaf, points in ascending order of their documents:
//!   count (4) | bounds | first document (8) | bits per document gap (1)
//!   | packed coordinates, dimension by dimension | packed document gaps
//! index node:
//!   split dimension (4) | split value (8) | bounds of the left child
//!   | bounds of the right child | place of the left child (8)
//!   | place of the right child (8)
//! ```
//!
//! Coordinates are packed as distances from the least one of the leaf in the
//! total order, at the width that the bounds of the leaf call for.

use vstd::bytes::*;
use vstd::prelude::*;
use vstd::seq_lib::*;
use vstd::slice::*;

use crate::bits;
use crate::codec;
use crate::error::LaurusError;
use crate::floats;
use crate::sort;
use crate::visitor;
use crate::visitor::{Cell, CellRelation, IntersectVisitor, RangeQueryVisitor, RangeState, AABB};

verus! {

/// "BKDT", least significant byte first.
pub const BKD_MAGIC: u32 = 0x5444_4B42;

/// The version of the format.
pub const BKD_VERSION: u32 = 4;

/// The bytes of a coordinate.
pub const BYTES_PER_DIM: u32 = 8;

// ---------------------------------------------------------------------------
// The file header
// ---------------------------------------------------------------------------

/// The header of a tree file.
#[derive(Debug, Clone, PartialEq, Eq)]
pub struct BKDFileHeader {
    pub magic: u32,
    pub version: u32,
    pub num_dims: u32,
    pub bytes_per_dim: u32,
    pub total_point_count: u64,
    pub num_blocks: u64,
    /// The largest number of points in a leaf.
    pub block_size: u32,
    pub min_values: Vec<u64>,
    pub max_values: Vec<u64>,
    pub index_start_offset: u64,
    pub root_node_offset: u64,
}

/// What a header holds beyond its marks.
#[verifier::ext_equal]
pub struct HeaderView {
    pub num_dims: u32,
    pub total: u64,
    pub num_blocks: u64,
    pub block_size: u32,
    pub min: Seq<u64>,
    pub max: Seq<u64>,
    pub index_start: u64,
    pub root: u64,
}

impl View for BKDFileHeader {
    type V = HeaderView;

    open spec fn view(&self) -> HeaderView {
        HeaderView {
            num_dims: self.num_dims,
            total: self.total_point_count,
            num_blocks: self.num_blocks,
            block_size: self.block_size,
            min: self.min_values@,
            max: self.max_values@,
            index_start: self.index_start_offset,
            root: self.root_node_offset,
        }
    }
}

impl BKDFileHeader {
    /// Whether the marks are those of the format.
    pub open spec fn is_marked(&self) -> bool {
        &&& self.magic == BKD_MAGIC
        &&& self.version == BKD_VERSION
        &&& self.bytes_per_dim == BYTES_PER_DIM
    }
}

/// The bytes of a header.
pub open spec fn put_header(h: HeaderView) -> Seq<u8> {
    spec_u32_to_le_bytes(BKD_MAGIC) + (spec_u32_to_le_bytes(BKD_VERSION) + (spec_u32_to_le_bytes(
        h.num_dims,
    ) + (spec_u32_to_le_bytes(BYTES_PER_DIM) + (spec_u64_to_le_bytes(h.total) + (
    spec_u64_to_le_bytes(h.num_blocks) + (spec_u32_to_le_bytes(h.block_size) + (codec::put_many(
        codec::put_u64(),
        h.min,
    ) + (codec::put_many(codec::put_u64(), h.max) + (spec_u64_to_le_bytes(h.index_start)
        + spec_u64_to_le_bytes(h.root))))))))))
}

/// The size of a header.
pub open spec fn header_size(num_dims: int) -> int {
    52 + 16 * num_dims
}

/// Takes the part of a header behind its marks.
pub open spec fn take_header_fields(b: Seq<u8>, p: int, num_dims: u32) -> codec::Taken<HeaderView> {
    match codec::take_u64(b, p, "BKD header") {
        Err(e) => Err(e),
        Ok((total, p1)) => match codec::take_u64(b, p1, "BKD header") {
            Err(e) => Err(e),
            Ok((num_blocks, p2)) => match codec::take_u32(b, p2, "BKD header") {
                Err(e) => Err(e),
                Ok((block_size, p3)) => match codec::take_many(
                    codec::each_u64("BKD header"),
                    b,
                    p3,
                    num_dims as nat,
                ) {
                    Err(e) => Err(e),
                    Ok((min, p4)) => match codec::take_many(
                        codec::each_u64("BKD header"),
                        b,
                        p4,
                        num_dims as nat,
                    ) {
                        Err(e) => Err(e),
                        Ok((max, p5)) => match codec::take_u64(b, p5, "BKD header") {
                            Err(e) => Err(e),
                            Ok((index_start, p6)) => match codec::take_u64(b, p6, "BKD header") {
                                Err(e) => Err(e),
                                Ok((root, p7)) => Ok(
                                    (
                                        HeaderView {
                                            num_dims,
                                            total,
                                            num_blocks,
                                            block_size,
                                            min,
                                            max,
                                            index_start,
                                            root,
                                        },
                                        p7,
                                    ),
                                ),
                            },
                        },
                    },
                },
            },
        },
    }
}

/// Takes the header of a file: its marks are checked, and the declared
/// dimensions must fit in what is left.
pub open spec fn take_header(b: Seq<u8>) -> Result<HeaderView, LaurusError> {
    match codec::take_u32(b, 0, "BKD header") {
        Err(e) => Err(e),
        Ok((magic, p1)) => if magic != BKD_MAGIC {
            Err(LaurusError::BkdMagic { bkd_magic: magic })
        } else {
            match codec::take_u32(b, p1, "BKD header") {
                Err(e) => Err(e),
                Ok((version, p2)) => if version != BKD_VERSION {
                    Err(LaurusError::BkdVersion { version })
                } else {
                    match codec::take_u32(b, p2, "BKD header") {
                        Err(e) => Err(e),
                        Ok((num_dims, p3)) => match codec::take_u32(b, p3, "BKD header") {
                            Err(e) => Err(e),
                            Ok((bytes_per_dim, p4)) => if bytes_per_dim != BYTES_PER_DIM {
                                Err(LaurusError::BkdBytesPerDim { bytes_per_dim })
                            } else {
                                match codec::check_count(
                                    num_dims as u64,
                                    16,
                                    b.len() - p4,
                                    "BKD num_dims",
                                ) {
                                    Err(e) => Err(e),
                                    Ok(_) => match take_header_fields(b, p4, num_dims) {
                                        Err(e) => Err(e),
                                        Ok((h, _)) => Ok(h),
                                    },
                                }
                            },
                        },
                    }
                },
            }
        },
    }
}

// ---------------------------------------------------------------------------
// Leaves
// ---------------------------------------------------------------------------

/// `a - b` modulo two to the power of 64.
pub open spec fn wrapped_sub(a: u64, b: u64) -> u64 {
    if a >= b {
        (a - b) as u64
    } else {
        (a - b + 0x1_0000_0000_0000_0000) as u64
    }
}

/// `a + b` modulo two to the power of 64.
pub open spec fn wrapped_add(a: u64, b: u64) -> u64 {
    if a + b <= u64::MAX {
        (a + b) as u64
    } else {
        (a + b - 0x1_0000_0000_0000_0000) as u64
    }
}

/// The bits that a coordinate takes in a leaf with these bounds.
pub open spec fn coordinate_width(cell: Cell, d: int) -> nat {
    bits::bit_length(
        wrapped_sub(floats::sortable(cell.max[d]), floats::sortable(cell.min[d])) as nat,
    )
}

/// The bytes that the first `n` dimensions take in a leaf of `count` points.
pub open spec fn sections_len(cell: Cell, count: nat, n: nat) -> nat
    decreases n,
{
    if n == 0 {
        0
    } else {
        sections_len(cell, count, (n - 1) as nat) + bits::packed_len(
            count,
            coordinate_width(cell, n - 1),
        )
    }
}

/// The head of a leaf.
pub struct LeafHead {
    pub count: u32,
    pub cell: Cell,
    pub doc_id_base: u64,
    pub doc_id_bits: u8,
}

/// Takes bounds.
pub open spec fn take_cell(b: Seq<u8>, p: int, num_dims: u32, what: &'static str) -> codec::Taken<
    Cell,
> {
    match codec::take_many(codec::each_u64(what), b, p, num_dims as nat) {
        Err(e) => Err(e),
        Ok((min, q)) => match codec::take_many(codec::each_u64(what), b, q, num_dims as nat) {
            Err(e) => Err(e),
            Ok((max, r)) => Ok((Cell { min, max }, r)),
        },
    }
}

/// The bytes of bounds.
pub open spec fn put_cell(cell: Cell) -> Seq<u8> {
    codec::put_many(codec::put_u64(), cell.min) + codec::put_many(codec::put_u64(), cell.max)
}

/// The packed bytes of a leaf.
pub open spec fn leaf_packed_len(head: LeafHead, num_dims: nat) -> nat {
    sections_len(head.cell, head.count as nat, num_dims) + bits::packed_len(
        head.count as nat,
        head.doc_id_bits as nat,
    )
}

/// Takes the head of a leaf. It may declare no more points than the tree or a
/// block has, no more than 64 bits for a gap, and no more packed bytes than are
/// left.
pub open spec fn take_leaf_head(b: Seq<u8>, p: int, h: HeaderView) -> codec::Taken<LeafHead> {
    match codec::take_u32(b, p, "BKD leaf") {
        Err(e) => Err(e),
        Ok((count, p1)) => if count > h.total {
            Err(LaurusError::LeafCount { points: count, total: h.total })
        } else if count > h.block_size {
            Err(LaurusError::LeafBlockSize { points: count, block_size: h.block_size })
        } else {
            match take_cell(b, p1, h.num_dims, "BKD leaf") {
                Err(e) => Err(e),
                Ok((cell, p2)) => match codec::take_u64(b, p2, "BKD leaf") {
                    Err(e) => Err(e),
                    Ok((doc_id_base, p3)) => match codec::take_u8(b, p3, "BKD leaf") {
                        Err(e) => Err(e),
                        Ok((doc_id_bits, p4)) => if doc_id_bits > 64 {
                            Err(LaurusError::DocIdBits { bits: doc_id_bits })
                        } else {
                            let head = LeafHead { count, cell, doc_id_base, doc_id_bits };
                            if leaf_packed_len(head, h.num_dims as nat) <= b.len() - p4 {
                                Ok((head, p4))
                            } else {
                                Err(LaurusError::LeafOverrun)
                            }
                        },
                    },
                },
            }
        },
    }
}

/// Coordinate `d` of point `i` of a leaf whose packed bytes start at `q`.
pub open spec fn leaf_coordinate(b: Seq<u8>, q: int, head: LeafHead, i: int, d: int) -> u64 {
    let width = coordinate_width(head.cell, d);
    let start = q + sections_len(head.cell, head.count as nat, d as nat);
    let section = b.subrange(start, start + bits::packed_len(head.count as nat, width));
    floats::unsortable(
        wrapped_add(
            floats::sortable(head.cell.min[d]),
            bits::bits_at(section, (i * width) as nat, width) as u64,
        ),
    )
}

/// The points of a leaf.
pub open spec fn leaf_points(b: Seq<u8>, q: int, head: LeafHead, num_dims: nat) -> Seq<Seq<u64>> {
    Seq::new(
        head.count as nat,
        |i: int| Seq::new(num_dims, |d: int| leaf_coordinate(b, q, head, i, d)),
    )
}

/// The first `n` documents of a leaf: each lies its gap behind the one before.
pub open spec fn running_ids(section: Seq<u8>, head: LeafHead, n: nat) -> Seq<u64>
    decreases n,
{
    if n == 0 {
        Seq::empty()
    } else {
        let before = running_ids(section, head, (n - 1) as nat);
        let last = if n == 1 { head.doc_id_base } else { before.last() };
        before.push(
            wrapped_add(
                last,
                bits::bits_at(
                    section,
                    ((n - 1) * head.doc_id_bits) as nat,
                    head.doc_id_bits as nat,
                ) as u64,
            ),
        )
    }
}

/// The packed document gaps of a leaf.
pub open spec fn gaps_section(b: Seq<u8>, q: int, head: LeafHead, num_dims: nat) -> Seq<u8> {
    let start = q + sections_len(head.cell, head.count as nat, num_dims);
    b.subrange(start, start + bits::packed_len(head.count as nat, head.doc_id_bits as nat))
}

/// The documents of a leaf. The first gap must be zero.
pub open spec fn leaf_ids(b: Seq<u8>, q: int, head: LeafHead, num_dims: nat) -> Result<
    Seq<u64>,
    LaurusError,
> {
    let section = gaps_section(b, q, head, num_dims);
    if section.len() > 0 && bits::bits_at(section, 0, head.doc_id_bits as nat) != 0 {
        Err(LaurusError::FirstDelta)
    } else {
        Ok(running_ids(section, head, head.count as nat))
    }
}

/// Documents with their points.
pub open spec fn zip_entries(ids: Seq<u64>, points: Seq<Seq<u64>>) -> Seq<(u64, Seq<u64>)> {
    Seq::new(ids.len(), |i: int| (ids[i], points[i]))
}

// ---------------------------------------------------------------------------
// Index nodes
// ---------------------------------------------------------------------------

/// An index node.
#[verifier::ext_equal]
pub struct NodeView {
    pub split_dim: u32,
    pub split_value: u64,
    pub left_cell: Cell,
    pub right_cell: Cell,
    pub left_offset: u64,
    pub right_offset: u64,
}

/// The bytes of an index node.
pub open spec fn put_node() -> spec_fn(NodeView) -> Seq<u8> {
    |n: NodeView|
        spec_u32_to_le_bytes(n.split_dim) + (spec_u64_to_le_bytes(n.split_value) + (put_cell(
            n.left_cell,
        ) + (put_cell(n.right_cell) + (spec_u64_to_le_bytes(n.left_offset) + spec_u64_to_le_bytes(
            n.right_offset,
        )))))
}

/// The size of an index node.
pub open spec fn node_len(num_dims: int) -> int {
    28 + 32 * num_dims
}

/// Takes an index node.
pub open spec fn take_node(b: Seq<u8>, p: int, num_dims: u32) -> codec::Taken<NodeView> {
    match codec::take_u32(b, p, "BKD node") {
        Err(e) => Err(e),
        Ok((split_dim, p1)) => match codec::take_u64(b, p1, "BKD node") {
            Err(e) => Err(e),
            Ok((split_value, p2)) => match take_cell(b, p2, num_dims, "BKD node") {
                Err(e) => Err(e),
                Ok((left_cell, p3)) => match take_cell(b, p3, num_dims, "BKD node") {
                    Err(e) => Err(e),
                    Ok((right_cell, p4)) => match codec::take_u64(b, p4, "BKD node") {
                        Err(e) => Err(e),
                        Ok((left_offset, p5)) => match codec::take_u64(b, p5, "BKD node") {
                            Err(e) => Err(e),
                            Ok((right_offset, p6)) => Ok(
                                (
                                    NodeView {
                                        split_dim,
                                        split_value,
                                        left_cell,
                                        right_cell,
                                        left_offset,
                                        right_offset,
                                    },
                                    p6,
                                ),
                            ),
                        },
                    },
                },
            },
        },
    }
}

// ---------------------------------------------------------------------------
// Trees
// ---------------------------------------------------------------------------

/// A document with one of its points.
pub type Entry = (u64, Seq<u64>);

/// What a walk can come upon.
pub enum Tree {
    /// No point.
    Empty,
    /// What cannot be read.
    Broken { error: LaurusError },
    /// Points with their bounds, where they can be read.
    Leaf { cell: Cell, entries: Result<Seq<Entry>, LaurusError> },
    /// Two subtrees with their bounds.
    Node { left_cell: Cell, left: Box<Tree>, right_cell: Cell, right: Box<Tree> },
    /// One tree and behind it another.
    Both { first: Box<Tree>, second: Box<Tree> },
}

/// The documents of entries.
pub open spec fn ids_of(entries: Seq<Entry>) -> Seq<u64> {
    Seq::new(entries.len(), |i: int| entries[i].0)
}

/// What a visitor knows when a walk ends, and how the walk ended.
pub type Walked<S> = (S, Result<(), LaurusError>);

/// A tree whose cell lies inside: only its documents are taken.
pub open spec fn collect<V: IntersectVisitor>(t: Tree, s: V::State) -> Walked<V::State>
    decreases t,
{
    match t {
        Tree::Empty => (s, Ok(())),
        Tree::Broken { error } => (s, Err(error)),
        Tree::Leaf { cell, entries } => match entries {
            Err(e) => (s, Err(e)),
            Ok(es) => (visitor::enter_all::<V>(s, ids_of(es)), Ok(())),
        },
        Tree::Node { left_cell, left, right_cell, right } => {
            let end = collect::<V>(*left, s);
            if end.1 is Err {
                end
            } else {
                collect::<V>(*right, end.0)
            }
        },
        Tree::Both { first, second } => {
            let end = collect::<V>(*first, s);
            if end.1 is Err {
                end
            } else {
                collect::<V>(*second, end.0)
            }
        },
    }
}

/// A walk: a cell outside is skipped, of a cell inside only the documents are
/// taken, and else the subtrees are walked and the points of a leaf are shown.
pub open spec fn walk<V: IntersectVisitor>(t: Tree, s: V::State) -> Walked<V::State>
    decreases t, 0nat,
{
    match t {
        Tree::Empty => (s, Ok(())),
        Tree::Broken { error } => (s, Err(error)),
        Tree::Leaf { cell, entries } => match V::relate(s, cell) {
            CellRelation::Outside => (s, Ok(())),
            CellRelation::Inside => collect::<V>(t, s),
            CellRelation::Crosses => match entries {
                Err(e) => (s, Err(e)),
                Ok(es) => (visitor::visit_all::<V>(s, es), Ok(())),
            },
        },
        Tree::Node { left_cell, left, right_cell, right } => {
            let end = walk_child::<V>(left_cell, *left, s);
            if end.1 is Err {
                end
            } else {
                walk_child::<V>(right_cell, *right, end.0)
            }
        },
        Tree::Both { first, second } => {
            let end = walk::<V>(*first, s);
            if end.1 is Err {
                end
            } else {
                walk::<V>(*second, end.0)
            }
        },
    }
}

/// A subtree with these bounds.
pub open spec fn walk_child<V: IntersectVisitor>(cell: Cell, t: Tree, s: V::State) -> Walked<
    V::State,
>
    decreases t, 1nat,
{
    match V::relate(s, cell) {
        CellRelation::Outside => (s, Ok(())),
        CellRelation::Inside => collect::<V>(t, s),
        CellRelation::Crosses => walk::<V>(t, s),
    }
}

/// The leaf that stands at `offset`.
pub open spec fn leaf_at(b: Seq<u8>, h: HeaderView, offset: u64) -> Tree {
    match take_leaf_head(b, offset as int, h) {
        Err(e) => Tree::Broken { error: e },
        Ok((head, q)) => Tree::Leaf {
            cell: head.cell,
            entries: match leaf_ids(b, q, head, h.num_dims as nat) {
                Err(e) => Err(e),
                Ok(ids) => Ok(zip_entries(ids, leaf_points(b, q, head, h.num_dims as nat))),
            },
        },
    }
}

/// The tree that stands at `offset`, at most `fuel` nodes deep: leaves stand in
/// front of the index, nodes in it.
pub open spec fn tree_at(b: Seq<u8>, h: HeaderView, offset: u64, fuel: nat) -> Tree
    decreases fuel,
{
    if offset < h.index_start {
        leaf_at(b, h, offset)
    } else if fuel == 0 {
        Tree::Broken { error: LaurusError::IndexCycle }
    } else {
        match take_node(b, offset as int, h.num_dims) {
            Err(e) => Tree::Broken { error: e },
            Ok((node, _)) => Tree::Node {
                left_cell: node.left_cell,
                left: Box::new(tree_at(b, h, node.left_offset, (fuel - 1) as nat)),
                right_cell: node.right_cell,
                right: Box::new(tree_at(b, h, node.right_offset, (fuel - 1) as nat)),
            },
        }
    }
}

/// The tree of a file. No path of an index without a cycle is longer than the
/// file.
pub open spec fn tree_of_file(b: Seq<u8>, h: HeaderView) -> Tree {
    if h.total == 0 {
        Tree::Empty
    } else {
        tree_at(b, h, h.root, b.len())
    }
}

// ---------------------------------------------------------------------------
// Reading
// ---------------------------------------------------------------------------

fn read_cell(bytes: &[u8], cursor: &mut usize, num_dims: u32, what: &'static str)
    -> (r: Result<AABB, LaurusError>)
    requires
        *old(cursor) <= bytes@.len(),
    ensures
        codec::read_view(r, *final(cursor), take_cell(bytes@, *old(cursor) as int, num_dims, what)),
        *final(cursor) <= bytes@.len(),
        r is Ok ==> r->Ok_0.min@.len() == num_dims && r->Ok_0.max@.len() == num_dims,
{
    let min: Vec<u64> = match codec::read_u64s(bytes, cursor, num_dims, what) {
        Ok(v) => v,
        Err(e) => return Err(e),
    };
    let max: Vec<u64> = match codec::read_u64s(bytes, cursor, num_dims, what) {
        Ok(v) => v,
        Err(e) => return Err(e),
    };
    Ok(AABB { min, max })
}

/// The key of the least coordinate of a leaf and the bits of its distances.
fn dim_point_bits(leaf_min: u64, leaf_max: u64) -> (r: (u64, u8))
    ensures
        r.0 == floats::sortable(leaf_min),
        r.1 == bits::bit_length(
            wrapped_sub(floats::sortable(leaf_max), floats::sortable(leaf_min)) as nat,
        ),
        r.1 <= 64,
{
    let base: u64 = floats::f64_to_sortable_u64(leaf_min);
    let top: u64 = floats::f64_to_sortable_u64(leaf_max);
    (base, bits::bits_needed(top.wrapping_sub(base)))
}

/// The head of a leaf, with the bytes that its coordinates take.
struct LeafHeader {
    count: u32,
    leaf_aabb: AABB,
    doc_id_base: u64,
    doc_id_bits: u8,
    points_len: usize,
}

impl LeafHeader {
    spec fn head(&self) -> LeafHead {
        LeafHead {
            count: self.count,
            cell: self.leaf_aabb@,
            doc_id_base: self.doc_id_base,
            doc_id_bits: self.doc_id_bits,
        }
    }

    /// Whether the packed bytes of this leaf stand at `q`.
    spec fn fits(&self, b: Seq<u8>, q: int, num_dims: u32) -> bool {
        &&& self.leaf_aabb.min@.len() == num_dims
        &&& self.leaf_aabb.max@.len() == num_dims
        &&& self.doc_id_bits <= 64
        &&& self.points_len == sections_len(self.leaf_aabb@, self.count as nat, num_dims as nat)
        &&& 0 <= q
        &&& q + leaf_packed_len(self.head(), num_dims as nat) <= b.len()
    }
}

fn read_leaf_fixed_header(bytes: &[u8], cursor: &mut usize, header: &BKDFileHeader)
    -> (r: Result<LeafHeader, LaurusError>)
    requires
        *old(cursor) <= bytes@.len(),
    ensures
        match take_leaf_head(bytes@, *old(cursor) as int, header@) {
            Err(e) => r == Err::<LeafHeader, LaurusError>(e),
            Ok((head, q)) => r is Ok && r->Ok_0.head() == head && *final(cursor) == q
                && r->Ok_0.fits(bytes@, q, header.num_dims),
        },
        *final(cursor) <= bytes@.len(),
{
    let count: u32 = match codec::read_u32_le(bytes, cursor, "BKD leaf") {
        Ok(v) => v,
        Err(e) => return Err(e),
    };
    if count as u64 > header.total_point_count {
        return Err(LaurusError::LeafCount { points: count, total: header.total_point_count });
    }
    if count > header.block_size {
        return Err(LaurusError::LeafBlockSize { points: count, block_size: header.block_size });
    }
    let leaf_aabb: AABB = match read_cell(bytes, cursor, header.num_dims, "BKD leaf") {
        Ok(v) => v,
        Err(e) => return Err(e),
    };
    let doc_id_base: u64 = match codec::read_u64_le(bytes, cursor, "BKD leaf") {
        Ok(v) => v,
        Err(e) => return Err(e),
    };
    let doc_id_bits: u8 = match codec::read_u8(bytes, cursor, "BKD leaf") {
        Ok(v) => v,
        Err(e) => return Err(e),
    };
    if doc_id_bits > 64 {
        return Err(LaurusError::DocIdBits { bits: doc_id_bits });
    }
    let num_dims: usize = leaf_aabb.min.len();
    let mut points_len: u128 = 0;
    let mut d: usize = 0;
    while d < num_dims
        invariant
            d <= num_dims,
            num_dims <= 0xffff_ffff,
            leaf_aabb.min@.len() == num_dims,
            leaf_aabb.max@.len() == num_dims,
            points_len == sections_len(leaf_aabb@, count as nat, d as nat),
            points_len <= d * 0x1_0000_0000_0000_0000,
        decreases num_dims - d,
    {
        let (_, width): (u64, u8) = dim_point_bits(leaf_aabb.min[d], leaf_aabb.max[d]);
        points_len = points_len + bits::packed_byte_len(count, width) as u128;
        d = d + 1;
    }
    let total: u128 = points_len + bits::packed_byte_len(count, doc_id_bits) as u128;
    if total > (bytes.len() - *cursor) as u128 {
        return Err(LaurusError::LeafOverrun);
    }
    Ok(LeafHeader { count, leaf_aabb, doc_id_base, doc_id_bits, points_len: points_len as usize })
}

/// `n` taken items are `n` items.
proof fn lemma_taken_len<T>(
    f: spec_fn(Seq<u8>, int) -> codec::Taken<T>,
    b: Seq<u8>,
    p: int,
    n: nat,
)
    requires
        codec::take_many(f, b, p, n) is Ok,
    ensures
        codec::take_many(f, b, p, n)->Ok_0.0.len() == n,
    decreases n,
{
    if n > 0 {
        lemma_taken_len(f, b, p, (n - 1) as nat);
    }
}

/// The bounds of a header have its dimensions.
pub proof fn lemma_header_dims(b: Seq<u8>)
    requires
        take_header(b) is Ok,
    ensures
        take_header(b)->Ok_0.min.len() == take_header(b)->Ok_0.num_dims,
        take_header(b)->Ok_0.max.len() == take_header(b)->Ok_0.num_dims,
{
    let num_dims = take_header(b)->Ok_0.num_dims;
    let f = codec::each_u64("BKD header");
    lemma_taken_len(f, b, 36, num_dims as nat);
    let p = codec::take_many(f, b, 36, num_dims as nat)->Ok_0.1;
    lemma_taken_len(f, b, p, num_dims as nat);
}

/// Reads the header of a file.
fn read_header(bytes: &[u8]) -> (r: Result<BKDFileHeader, LaurusError>)
    ensures
        match take_header(bytes@) {
            Err(e) => r == Err::<BKDFileHeader, LaurusError>(e),
            Ok(h) => r is Ok && r->Ok_0@ == h && r->Ok_0.is_marked(),
        },
{
    let mut cursor: usize = 0;
    let magic: u32 = match codec::read_u32_le(bytes, &mut cursor, "BKD header") {
        Ok(v) => v,
        Err(e) => return Err(e),
    };
    if magic != BKD_MAGIC {
        return Err(LaurusError::BkdMagic { bkd_magic: magic });
    }
    let version: u32 = match codec::read_u32_le(bytes, &mut cursor, "BKD header") {
        Ok(v) => v,
        Err(e) => return Err(e),
    };
    if version != BKD_VERSION {
        return Err(LaurusError::BkdVersion { version });
    }
    let num_dims: u32 = match codec::read_u32_le(bytes, &mut cursor, "BKD header") {
        Ok(v) => v,
        Err(e) => return Err(e),
    };
    let bytes_per_dim: u32 = match codec::read_u32_le(bytes, &mut cursor, "BKD header") {
        Ok(v) => v,
        Err(e) => return Err(e),
    };
    if bytes_per_dim != BYTES_PER_DIM {
        return Err(LaurusError::BkdBytesPerDim { bytes_per_dim });
    }
    let available: u64 = (bytes.len() - cursor) as u64;
    match codec::checked_capacity(num_dims as u64, 16, available, "BKD num_dims") {
        Ok(_) => {},
        Err(e) => return Err(e),
    }
    let total_point_count: u64 = match codec::read_u64_le(bytes, &mut cursor, "BKD header") {
        Ok(v) => v,
        Err(e) => return Err(e),
    };
    let num_blocks: u64 = match codec::read_u64_le(bytes, &mut cursor, "BKD header") {
        Ok(v) => v,
        Err(e) => return Err(e),
    };
    let block_size: u32 = match codec::read_u32_le(bytes, &mut cursor, "BKD header") {
        Ok(v) => v,
        Err(e) => return Err(e),
    };
    let min_values: Vec<u64> = match codec::read_u64s(bytes, &mut cursor, num_dims, "BKD header") {
        Ok(v) => v,
        Err(e) => return Err(e),
    };
    let max_values: Vec<u64> = match codec::read_u64s(bytes, &mut cursor, num_dims, "BKD header") {
        Ok(v) => v,
        Err(e) => return Err(e),
    };
    let index_start_offset: u64 = match codec::read_u64_le(bytes, &mut cursor, "BKD header") {
        Ok(v) => v,
        Err(e) => return Err(e),
    };
    let root_node_offset: u64 = match codec::read_u64_le(bytes, &mut cursor, "BKD header") {
        Ok(v) => v,
        Err(e) => return Err(e),
    };
    Ok(
        BKDFileHeader {
            magic,
            version,
            num_dims,
            bytes_per_dim,
            total_point_count,
            num_blocks,
            block_size,
            min_values,
            max_values,
            index_start_offset,
            root_node_offset,
        },
    )
}

/// An index node.
struct IndexNode {
    split_dim: u32,
    split_value: u64,
    left_aabb: AABB,
    right_aabb: AABB,
    left_offset: u64,
    right_offset: u64,
}

impl View for IndexNode {
    type V = NodeView;

    closed spec fn view(&self) -> NodeView {
        NodeView {
            split_dim: self.split_dim,
            split_value: self.split_value,
            left_cell: self.left_aabb@,
            right_cell: self.right_aabb@,
            left_offset: self.left_offset,
            right_offset: self.right_offset,
        }
    }
}

/// Reads an index node.
fn read_node(bytes: &[u8], offset: u64, num_dims: u32) -> (r: Result<IndexNode, LaurusError>)
    ensures
        match take_node(bytes@, offset as int, num_dims) {
            Err(e) => r == Err::<IndexNode, LaurusError>(e),
            Ok((node, _)) => r is Ok && r->Ok_0@ == node,
        },
{
    if offset > bytes.len() as u64 {
        return Err(LaurusError::Truncated { what: "BKD node" });
    }
    let mut cursor: usize = offset as usize;
    let split_dim: u32 = match codec::read_u32_le(bytes, &mut cursor, "BKD node") {
        Ok(v) => v,
        Err(e) => return Err(e),
    };
    let split_value: u64 = match codec::read_u64_le(bytes, &mut cursor, "BKD node") {
        Ok(v) => v,
        Err(e) => return Err(e),
    };
    let left_aabb: AABB = match read_cell(bytes, &mut cursor, num_dims, "BKD node") {
        Ok(v) => v,
        Err(e) => return Err(e),
    };
    let right_aabb: AABB = match read_cell(bytes, &mut cursor, num_dims, "BKD node") {
        Ok(v) => v,
        Err(e) => return Err(e),
    };
    let left_offset: u64 = match codec::read_u64_le(bytes, &mut cursor, "BKD node") {
        Ok(v) => v,
        Err(e) => return Err(e),
    };
    let right_offset: u64 = match codec::read_u64_le(bytes, &mut cursor, "BKD node") {
        Ok(v) => v,
        Err(e) => return Err(e),
    };
    Ok(IndexNode { split_dim, split_value, left_aabb, right_aabb, left_offset, right_offset })
}

/// The packed coordinates of `n` dimensions stand in front of what follows.
proof fn lemma_sections_grow(cell: Cell, count: nat, n: nat, m: nat)
    requires
        n <= m,
    ensures
        sections_len(cell, count, n) <= sections_len(cell, count, m),
    decreases m - n,
{
    if n < m {
        lemma_sections_grow(cell, count, n, (m - 1) as nat);
    }
}

/// The coordinates of a leaf, dimension by dimension.
fn decode_columns(bytes: &[u8], start: usize, leaf: &LeafHeader, num_dims: u32) -> (r: Vec<Vec<u64>>)
    requires
        leaf.fits(bytes@, start as int, num_dims),
    ensures
        r@.len() == num_dims,
        forall|d: int| 0 <= d < num_dims ==> (#[trigger] r@[d])@.len() == leaf.count,
        forall|d: int, i: int|
            0 <= d < num_dims && 0 <= i < leaf.count ==> (#[trigger] r@[d]@[i]) == leaf_coordinate(
                bytes@,
                start as int,
                leaf.head(),
                i,
                d,
            ),
{
    let size: usize = bytes.len();
    let mut columns: Vec<Vec<u64>> = Vec::new();
    let mut at: usize = start;
    let mut d: u32 = 0;
    while d < num_dims
        invariant
            d <= num_dims,
            size == bytes@.len(),
            leaf.fits(bytes@, start as int, num_dims),
            at == start + sections_len(leaf.leaf_aabb@, leaf.count as nat, d as nat),
            columns@.len() == d,
            forall|k: int| 0 <= k < d ==> (#[trigger] columns@[k])@.len() == leaf.count,
            forall|k: int, i: int|
                0 <= k < d && 0 <= i < leaf.count ==> (#[trigger] columns@[k]@[i])
                    == leaf_coordinate(bytes@, start as int, leaf.head(), i, k),
        decreases num_dims - d,
    {
        let (base, width): (u64, u8) = dim_point_bits(
            leaf.leaf_aabb.min[d as usize],
            leaf.leaf_aabb.max[d as usize],
        );
        proof {
            lemma_sections_grow(leaf.leaf_aabb@, leaf.count as nat, (d + 1) as nat, num_dims as nat);
        }
        let len: usize = bits::packed_byte_len(leaf.count, width) as usize;
        let section: &[u8] = slice_subrange(bytes, at, at + len);
        let deltas: Vec<u64> = bits::unpack(section, leaf.count, width);
        let mut column: Vec<u64> = Vec::new();
        let mut i: u32 = 0;
        while i < leaf.count
            invariant
                i <= leaf.count,
                d < num_dims,
                deltas@.len() == leaf.count,
                width == coordinate_width(leaf.leaf_aabb@, d as int),
                base == floats::sortable(leaf.leaf_aabb.min@[d as int]),
                at == start + sections_len(leaf.leaf_aabb@, leaf.count as nat, d as nat),
                len == bits::packed_len(leaf.count as nat, width as nat),
                section@ == bytes@.subrange(at as int, at + len),
                forall|j: int|
                    0 <= j < leaf.count ==> (#[trigger] deltas@[j]) == bits::bits_at(
                        section@,
                        (j * width) as nat,
                        width as nat,
                    ),
                column@.len() == i,
                forall|j: int|
                    0 <= j < i ==> (#[trigger] column@[j]) == leaf_coordinate(
                        bytes@,
                        start as int,
                        leaf.head(),
                        j,
                        d as int,
                    ),
            decreases leaf.count - i,
        {
            column.push(floats::sortable_u64_to_f64(base.wrapping_add(deltas[i as usize])));
            i = i + 1;
        }
        columns.push(column);
        at = at + len;
        d = d + 1;
    }
    columns
}

/// The documents of a leaf, from the bytes of their gaps.
fn decode_doc_ids(bytes: &[u8], start: usize, leaf: &LeafHeader, num_dims: u32)
    -> (r: Result<Vec<u64>, LaurusError>)
    requires
        leaf.fits(bytes@, start as int, num_dims),
    ensures
        match leaf_ids(bytes@, start as int, leaf.head(), num_dims as nat) {
            Err(e) => r == Err::<Vec<u64>, LaurusError>(e),
            Ok(ids) => r is Ok && r->Ok_0@ == ids && ids.len() == leaf.count,
        },
{
    let size: usize = bytes.len();
    assert(start + leaf.points_len <= size);
    let at: usize = start + leaf.points_len;
    let len: usize = bits::packed_byte_len(leaf.count, leaf.doc_id_bits) as usize;
    let section: &[u8] = slice_subrange(bytes, at, at + len);
    let deltas: Vec<u64> = bits::unpack(section, leaf.count, leaf.doc_id_bits);
    proof {
        if len > 0 && leaf.count == 0 {
            assert(leaf.count * leaf.doc_id_bits == 0) by (nonlinear_arith)
                requires
                    leaf.count == 0,
            ;
        }
        assert(0 * leaf.doc_id_bits == 0) by (nonlinear_arith);
    }
    if len > 0 && deltas[0] != 0 {
        return Err(LaurusError::FirstDelta);
    }
    let mut ids: Vec<u64> = Vec::new();
    let mut running: u64 = leaf.doc_id_base;
    let mut i: u32 = 0;
    assert(ids@ =~= running_ids(section@, leaf.head(), 0));
    while i < leaf.count
        invariant
            i <= leaf.count,
            deltas@.len() == leaf.count,
            forall|j: int|
                0 <= j < leaf.count ==> (#[trigger] deltas@[j]) == bits::bits_at(
                    section@,
                    (j * leaf.doc_id_bits) as nat,
                    leaf.doc_id_bits as nat,
                ),
            ids@.len() == i,
            ids@ == running_ids(section@, leaf.head(), i as nat),
            running == (if i == 0 {
                leaf.doc_id_base
            } else {
                ids@.last()
            }),
        decreases leaf.count - i,
    {
        running = running.wrapping_add(deltas[i as usize]);
        ids.push(running);
        i = i + 1;
    }
    Ok(ids)
}

/// Point `i` of the columns.
fn point_of(columns: &Vec<Vec<u64>>, i: usize) -> (r: Vec<u64>)
    requires
        forall|d: int| 0 <= d < columns@.len() ==> i < (#[trigger] columns@[d])@.len(),
    ensures
        r@ == Seq::new(columns@.len(), |d: int| columns@[d]@[i as int]),
{
    let mut point: Vec<u64> = Vec::new();
    let mut d: usize = 0;
    while d < columns.len()
        invariant
            d <= columns@.len(),
            forall|k: int| 0 <= k < columns@.len() ==> i < (#[trigger] columns@[k])@.len(),
            point@.len() == d,
            forall|k: int| 0 <= k < d ==> (#[trigger] point@[k]) == columns@[k]@[i as int],
        decreases columns@.len() - d,
    {
        point.push(columns[d][i]);
        d = d + 1;
    }
    assert(point@ =~= Seq::new(columns@.len(), |d: int| columns@[d]@[i as int]));
    point
}

fn enter_ids<V: IntersectVisitor>(visitor: &mut V, ids: &Vec<u64>)
    ensures
        final(visitor).state() == visitor::enter_all::<V>(old(visitor).state(), ids@),
{
    let mut i: usize = 0;
    assert(ids@.take(0) =~= Seq::empty());
    while i < ids.len()
        invariant
            i <= ids@.len(),
            visitor.state() == visitor::enter_all::<V>(old(visitor).state(), ids@.take(i as int)),
        decreases ids@.len() - i,
    {
        visitor.visit_inside(ids[i]);
        assert(ids@.take(i + 1).drop_last() =~= ids@.take(i as int));
        i = i + 1;
    }
    assert(ids@.take(ids@.len() as int) =~= ids@);
}

fn visit_points<V: IntersectVisitor>(visitor: &mut V, ids: &Vec<u64>, columns: &Vec<Vec<u64>>)
    requires
        forall|d: int| 0 <= d < columns@.len() ==> ids@.len() == (#[trigger] columns@[d])@.len(),
    ensures
        final(visitor).state() == visitor::visit_all::<V>(
            old(visitor).state(),
            zip_entries(
                ids@,
                Seq::new(
                    ids@.len(),
                    |i: int| Seq::new(columns@.len(), |d: int| columns@[d]@[i]),
                ),
            ),
        ),
{
    let ghost points = Seq::new(
        ids@.len(),
        |i: int| Seq::new(columns@.len(), |d: int| columns@[d]@[i]),
    );
    let ghost entries = zip_entries(ids@, points);
    let mut i: usize = 0;
    assert(entries.take(0) =~= Seq::empty());
    while i < ids.len()
        invariant
            i <= ids@.len(),
            forall|d: int| 0 <= d < columns@.len() ==> ids@.len() == (#[trigger] columns@[d])@.len(),
            points == Seq::new(
                ids@.len(),
                |i: int| Seq::new(columns@.len(), |d: int| columns@[d]@[i]),
            ),
            entries == zip_entries(ids@, points),
            visitor.state() == visitor::visit_all::<V>(
                old(visitor).state(),
                entries.take(i as int),
            ),
        decreases ids@.len() - i,
    {
        let point: Vec<u64> = point_of(columns, i);
        visitor.visit(ids[i], point.as_slice());
        assert(entries.take(i + 1).drop_last() =~= entries.take(i as int));
        assert(entries.take(i + 1).last() == (ids@[i as int], point@));
        i = i + 1;
    }
    assert(entries.take(ids@.len() as int) =~= entries);
}

/// The documents of the entries of a leaf are its documents.
proof fn lemma_ids_of_leaf(b: Seq<u8>, q: int, head: LeafHead, num_dims: nat)
    requires
        leaf_ids(b, q, head, num_dims) is Ok,
    ensures
        ids_of(
            zip_entries(leaf_ids(b, q, head, num_dims)->Ok_0, leaf_points(b, q, head, num_dims)),
        ) == leaf_ids(b, q, head, num_dims)->Ok_0,
{
    let ids = leaf_ids(b, q, head, num_dims)->Ok_0;
    assert(ids_of(zip_entries(ids, leaf_points(b, q, head, num_dims))) =~= ids);
}

/// A tree of points, in memory or in a file.
pub trait BKDTree: Sized {
    /// What a walk of this tree comes upon.
    spec fn tree(&self) -> Tree;

    /// Shows the cells and points of this tree to a visitor.
    fn intersect<V: IntersectVisitor>(&self, visitor: &mut V) -> (r: Result<(), LaurusError>)
        ensures
            (final(visitor).state(), r) == walk::<V>(self.tree(), old(visitor).state()),
    ;

    /// The least and the greatest coordinate of a dimension and the number of
    /// points, where they are known.
    fn value_range(&self, dim: usize) -> (r: Option<(u64, u64, u64)>)
        default_ensures
            r is None,
    {
        None
    }

    /// The documents that a walk finds in a range, each once and in ascending
    /// order. A bound that is not given leaves its side open.
    fn range_search(
        &self,
        mins: &[Option<u64>],
        maxs: &[Option<u64>],
        include_min: bool,
        include_max: bool,
    ) -> (r: Result<Vec<u64>, LaurusError>)
        ensures
            ({
                let end = walk::<RangeQueryVisitor>(
                    self.tree(),
                    visitor::range_of(mins@, maxs@, include_min, include_max),
                );
                match end.1 {
                    Err(e) => r == Err::<Vec<u64>, LaurusError>(e),
                    Ok(_) => r is Ok && sort::ascending_set_of(r->Ok_0@, end.0.hits),
                }
            }),
    {
        let mut visitor: RangeQueryVisitor = RangeQueryVisitor::new(
            mins,
            maxs,
            include_min,
            include_max,
        );
        match self.intersect(&mut visitor) {
            Ok(_) => {},
            Err(e) => return Err(e),
        }
        let hits: Vec<u64> = visitor.into_hits();
        Ok(sort::sorted_unique(&hits))
    }
}

/// Reader of a tree file.
#[derive(Debug)]
pub struct BKDReader {
    header: BKDFileHeader,
    bytes: Vec<u8>,
}

impl BKDReader {
    /// The bytes of the file.
    pub closed spec fn file(&self) -> Seq<u8> {
        self.bytes@
    }

    /// The header of the file.
    pub closed spec fn head(&self) -> HeaderView {
        self.header@
    }

    #[verifier::type_invariant]
    spec fn header_is_of_file(&self) -> bool {
        &&& take_header(self.bytes@) == Ok::<HeaderView, LaurusError>(self.header@)
        &&& self.header.is_marked()
    }

    /// The header of the file.
    pub fn header(&self) -> (r: &BKDFileHeader)
        ensures
            r@ == self.head(),
            r.is_marked(),
            take_header(self.file()) == Ok::<HeaderView, LaurusError>(self.head()),
    {
        proof {
            use_type_invariant(self);
        }
        &self.header
    }

    /// Opens a tree from the bytes of its file.
    pub fn open(bytes: Vec<u8>) -> (r: Result<BKDReader, LaurusError>)
        ensures
            match take_header(bytes@) {
                Err(e) => r == Err::<BKDReader, LaurusError>(e),
                Ok(h) => r is Ok && r->Ok_0.head() == h && r->Ok_0.file() == bytes@,
            },
    {
        let header: BKDFileHeader = match read_header(bytes.as_slice()) {
            Ok(h) => h,
            Err(e) => return Err(e),
        };
        Ok(BKDReader { header, bytes })
    }

    fn collect_leaf<V: IntersectVisitor>(&self, offset: u64, visitor: &mut V)
        -> (r: Result<(), LaurusError>)
        ensures
            (final(visitor).state(), r) == collect::<V>(
                leaf_at(self.file(), self.head(), offset),
                old(visitor).state(),
            ),
    {
        let bytes: &[u8] = self.bytes.as_slice();
        if offset > bytes.len() as u64 {
            return Err(LaurusError::Truncated { what: "BKD leaf" });
        }
        let mut cursor: usize = offset as usize;
        let leaf: LeafHeader = match read_leaf_fixed_header(bytes, &mut cursor, &self.header) {
            Ok(v) => v,
            Err(e) => return Err(e),
        };
        match decode_doc_ids(bytes, cursor, &leaf, self.header.num_dims) {
            Ok(ids) => {
                enter_ids(visitor, &ids);
                proof {
                    lemma_ids_of_leaf(bytes@, cursor as int, leaf.head(), self.header.num_dims as nat);
                }
                Ok(())
            },
            Err(e) => Err(e),
        }
    }

    fn intersect_leaf<V: IntersectVisitor>(&self, offset: u64, visitor: &mut V)
        -> (r: Result<(), LaurusError>)
        ensures
            (final(visitor).state(), r) == walk::<V>(
                leaf_at(self.file(), self.head(), offset),
                old(visitor).state(),
            ),
    {
        let bytes: &[u8] = self.bytes.as_slice();
        if offset > bytes.len() as u64 {
            return Err(LaurusError::Truncated { what: "BKD leaf" });
        }
        let mut cursor: usize = offset as usize;
        let leaf: LeafHeader = match read_leaf_fixed_header(bytes, &mut cursor, &self.header) {
            Ok(v) => v,
            Err(e) => return Err(e),
        };
        match visitor.compare(&leaf.leaf_aabb) {
            CellRelation::Outside => Ok(()),
            CellRelation::Inside => match decode_doc_ids(
                bytes,
                cursor,
                &leaf,
                self.header.num_dims,
            ) {
                Ok(ids) => {
                    enter_ids(visitor, &ids);
                    proof {
                        lemma_ids_of_leaf(
                            bytes@,
                            cursor as int,
                            leaf.head(),
                            self.header.num_dims as nat,
                        );
                    }
                    Ok(())
                },
                Err(e) => Err(e),
            },
            CellRelation::Crosses => {
                let columns: Vec<Vec<u64>> = decode_columns(
                    bytes,
                    cursor,
                    &leaf,
                    self.header.num_dims,
                );
                match decode_doc_ids(bytes, cursor, &leaf, self.header.num_dims) {
                    Ok(ids) => {
                        visit_points(visitor, &ids, &columns);
                        proof {
                            let points = Seq::new(
                                ids@.len(),
                                |i: int| Seq::new(columns@.len(), |d: int| columns@[d]@[i]),
                            );
                            let shown = leaf_points(
                                bytes@,
                                cursor as int,
                                leaf.head(),
                                self.header.num_dims as nat,
                            );
                            assert forall|i: int| 0 <= i < ids@.len() implies points[i]
                                == shown[i] by {
                                assert(points[i] =~= shown[i]);
                            }
                            assert(points =~= shown);
                        }
                        Ok(())
                    },
                    Err(e) => Err(e),
                }
            },
        }
    }

    fn collect_subtree<V: IntersectVisitor>(&self, offset: u64, visitor: &mut V, fuel: usize)
        -> (r: Result<(), LaurusError>)
        ensures
            (final(visitor).state(), r) == collect::<V>(
                tree_at(self.file(), self.head(), offset, fuel as nat),
                old(visitor).state(),
            ),
        decreases fuel,
    {
        if offset < self.header.index_start_offset {
            return self.collect_leaf(offset, visitor);
        }
        if fuel == 0 {
            return Err(LaurusError::IndexCycle);
        }
        let node: IndexNode = match read_node(self.bytes.as_slice(), offset, self.header.num_dims) {
            Ok(v) => v,
            Err(e) => return Err(e),
        };
        match self.collect_subtree(node.left_offset, visitor, fuel - 1) {
            Ok(_) => {},
            Err(e) => return Err(e),
        }
        self.collect_subtree(node.right_offset, visitor, fuel - 1)
    }

    fn intersect_subtree<V: IntersectVisitor>(&self, offset: u64, visitor: &mut V, fuel: usize)
        -> (r: Result<(), LaurusError>)
        ensures
            (final(visitor).state(), r) == walk::<V>(
                tree_at(self.file(), self.head(), offset, fuel as nat),
                old(visitor).state(),
            ),
        decreases fuel, 0nat,
    {
        if offset < self.header.index_start_offset {
            return self.intersect_leaf(offset, visitor);
        }
        if fuel == 0 {
            return Err(LaurusError::IndexCycle);
        }
        let node: IndexNode = match read_node(self.bytes.as_slice(), offset, self.header.num_dims) {
            Ok(v) => v,
            Err(e) => return Err(e),
        };
        match self.intersect_child(&node.left_aabb, node.left_offset, visitor, fuel - 1) {
            Ok(_) => {},
            Err(e) => return Err(e),
        }
        self.intersect_child(&node.right_aabb, node.right_offset, visitor, fuel - 1)
    }

    fn intersect_child<V: IntersectVisitor>(
        &self,
        aabb: &AABB,
        offset: u64,
        visitor: &mut V,
        fuel: usize,
    ) -> (r: Result<(), LaurusError>)
        ensures
            (final(visitor).state(), r) == walk_child::<V>(
                aabb@,
                tree_at(self.file(), self.head(), offset, fuel as nat),
                old(visitor).state(),
            ),
        decreases fuel, 1nat,
    {
        match visitor.compare(aabb) {
            CellRelation::Outside => Ok(()),
            CellRelation::Inside => self.collect_subtree(offset, visitor, fuel),
            CellRelation::Crosses => self.intersect_subtree(offset, visitor, fuel),
        }
    }
}

/// The bounds that a header states for a dimension, with the number of points.
pub open spec fn stated_range(h: HeaderView, dim: usize) -> Option<(u64, u64, u64)> {
    if h.total > 0 && dim < h.min.len() {
        Some((h.min[dim as int], h.max[dim as int], h.total))
    } else {
        None
    }
}

impl BKDTree for BKDReader {
    open spec fn tree(&self) -> Tree {
        tree_of_file(self.file(), self.head())
    }

    fn intersect<V: IntersectVisitor>(&self, visitor: &mut V) -> (r: Result<(), LaurusError>) {
        if self.header.total_point_count == 0 {
            return Ok(());
        }
        self.intersect_subtree(self.header.root_node_offset, visitor, self.bytes.len())
    }

    /// The bounds of the header; a tree without points has none.
    fn value_range(&self, dim: usize) -> (r: Option<(u64, u64, u64)>)
        ensures
            r == stated_range(self.head(), dim),
    {
        proof {
            use_type_invariant(self);
        }
        if self.header.total_point_count == 0 || dim >= self.header.min_values.len() {
            return None;
        }
        assert(self.header.max_values@.len() == self.header.min_values@.len()) by {
            lemma_header_dims(self.bytes@);
        }
        Some(
            (
                self.header.min_values[dim],
                self.header.max_values[dim],
                self.header.total_point_count,
            ),
        )
    }
}

// ---------------------------------------------------------------------------
// What is written
// ---------------------------------------------------------------------------

/// The smaller of two patterns in the total order.
pub open spec fn lower(a: u64, b: u64) -> u64 {
    if floats::total_at_most(a, b) {
        a
    } else {
        b
    }
}

/// The larger of two patterns in the total order.
pub open spec fn higher(a: u64, b: u64) -> u64 {
    if floats::total_at_most(b, a) {
        a
    } else {
        b
    }
}

/// The least of `start` and the coordinates of dimension `d`.
pub open spec fn least(es: Seq<Entry>, d: int, start: u64) -> u64
    decreases es.len(),
{
    if es.len() == 0 {
        start
    } else {
        lower(least(es.drop_last(), d, start), es.last().1[d])
    }
}

/// The greatest of `start` and the coordinates of dimension `d`.
pub open spec fn greatest(es: Seq<Entry>, d: int, start: u64) -> u64
    decreases es.len(),
{
    if es.len() == 0 {
        start
    } else {
        higher(greatest(es.drop_last(), d, start), es.last().1[d])
    }
}

/// The bounds of points, widened by a point between `low` and `high`.
pub open spec fn bounds(es: Seq<Entry>, num_dims: nat, low: u64, high: u64) -> Cell {
    Cell {
        min: Seq::new(num_dims, |d: int| least(es, d, low)),
        max: Seq::new(num_dims, |d: int| greatest(es, d, high)),
    }
}

/// The bounds of points.
pub open spec fn cell_of(es: Seq<Entry>, num_dims: nat) -> Cell {
    bounds(es, num_dims, floats::INFINITY, floats::NEG_INFINITY)
}

/// Entries in another order.
pub open spec fn permuted(es: Seq<Entry>, order: Seq<usize>) -> Seq<Entry> {
    Seq::new(order.len(), |i: int| es[order[i] as int])
}

/// The documents of entries as keys.
pub open spec fn doc_keys(es: Seq<Entry>) -> Seq<u64> {
    ids_of(es)
}

/// The coordinates of entries in one dimension as keys.
pub open spec fn coordinate_keys(es: Seq<Entry>, d: int) -> Seq<u64> {
    Seq::new(es.len(), |i: int| floats::sortable(es[i].1[d]))
}

/// Entries in ascending order of their documents; those of one document keep
/// their order.
pub open spec fn by_doc(es: Seq<Entry>) -> Seq<Entry> {
    permuted(es, sort::order_of(doc_keys(es)))
}

/// Entries in the total order of one coordinate; those that tie keep their
/// order.
pub open spec fn by_coordinate(es: Seq<Entry>, d: int) -> Seq<Entry> {
    permuted(es, sort::order_of(coordinate_keys(es, d)))
}

/// The first of the greatest among the first `n` spans.
pub open spec fn widest_of(spans: Seq<u64>, n: int) -> int
    decreases n,
{
    if n <= 1 {
        0
    } else {
        let best = widest_of(spans, n - 1);
        if floats::less(spans[best], spans[n - 1]) {
            n - 1
        } else {
            best
        }
    }
}

/// Whether `spans` are what `subtract` gives for the bounds of each dimension.
pub open spec fn spans_of<F: Fn(u64, u64) -> u64>(subtract: F, cell: Cell, spans: Seq<u64>) -> bool {
    &&& spans.len() == cell.min.len()
    &&& forall|d: int|
        0 <= d < spans.len() ==> call_ensures(
            subtract,
            (cell.max[d], cell.min[d]),
            #[trigger] spans[d],
        )
}

/// Whether `d` is the widest dimension of a cell, the first one where several
/// are as wide.
pub open spec fn widest<F: Fn(u64, u64) -> u64>(subtract: F, cell: Cell, d: int) -> bool {
    exists|spans: Seq<u64>| #[trigger]
        spans_of(subtract, cell, spans) && d == widest_of(spans, spans.len() as int)
}

/// How points are divided up.
pub enum Plan {
    /// A leaf with its points in the order in which they are stored.
    Leaf { cell: Cell, entries: Seq<Entry> },
    /// A division in front of `split_value`.
    Node { cell: Cell, split_dim: u32, split_value: u64, left: Box<Plan>, right: Box<Plan> },
}

impl Plan {
    /// The bounds of the points.
    pub open spec fn cell(self) -> Cell {
        match self {
            Plan::Leaf { cell, entries } => cell,
            Plan::Node { cell, split_dim, split_value, left, right } => cell,
        }
    }

    /// How many leaves there are.
    pub open spec fn leaves(self) -> nat
        decreases self,
    {
        match self {
            Plan::Leaf { cell, entries } => 1,
            Plan::Node { cell, split_dim, split_value, left, right } => left.leaves()
                + right.leaves(),
        }
    }

    /// How many divisions there are.
    pub open spec fn nodes(self) -> nat
        decreases self,
    {
        match self {
            Plan::Leaf { cell, entries } => 0,
            Plan::Node { cell, split_dim, split_value, left, right } => 1 + left.nodes()
                + right.nodes(),
        }
    }

    /// What a walk comes upon.
    pub open spec fn tree(self) -> Tree
        decreases self,
    {
        match self {
            Plan::Leaf { cell, entries } => Tree::Leaf { cell, entries: Ok(entries) },
            Plan::Node { cell, split_dim, split_value, left, right } => Tree::Node {
                left_cell: left.cell(),
                left: Box::new(left.tree()),
                right_cell: right.cell(),
                right: Box::new(right.tree()),
            },
        }
    }
}

/// Whether `plan` divides the points `es` into leaves of at most `block_size`
/// points: at the median of the widest dimension, as long as there are more.
pub open spec fn divides<F: Fn(u64, u64) -> u64>(
    subtract: F,
    es: Seq<Entry>,
    num_dims: nat,
    block_size: nat,
    plan: Plan,
) -> bool
    decreases plan,
{
    &&& es.len() > 0
    &&& match plan {
        Plan::Leaf { cell, entries } => {
            &&& es.len() <= block_size
            &&& cell == cell_of(es, num_dims)
            &&& entries == by_doc(es)
        },
        Plan::Node { cell, split_dim, split_value, left, right } => {
            let sorted = by_coordinate(es, split_dim as int);
            let mid = es.len() as int / 2;
            &&& es.len() > block_size
            &&& cell == cell_of(es, num_dims)
            &&& split_dim < num_dims
            &&& widest(subtract, cell, split_dim as int)
            &&& split_value == sorted[mid].1[split_dim as int]
            &&& divides(subtract, sorted.take(mid), num_dims, block_size, *left)
            &&& divides(subtract, sorted.skip(mid), num_dims, block_size, *right)
        },
    }
}

/// The distances of the coordinates of dimension `d` from the least one.
pub open spec fn column_deltas(cell: Cell, es: Seq<Entry>, d: int) -> Seq<u64> {
    Seq::new(
        es.len(),
        |i: int| wrapped_sub(floats::sortable(es[i].1[d]), floats::sortable(cell.min[d])),
    )
}

/// The packed coordinates of the first `n` dimensions.
pub open spec fn put_sections(cell: Cell, es: Seq<Entry>, n: nat) -> Seq<u8>
    decreases n,
{
    if n == 0 {
        Seq::empty()
    } else {
        put_sections(cell, es, (n - 1) as nat) + bits::packed(
            column_deltas(cell, es, n - 1),
            coordinate_width(cell, n - 1),
        )
    }
}

/// The distance of each document from the one before it.
pub open spec fn doc_gaps(es: Seq<Entry>) -> Seq<u64> {
    Seq::new(
        es.len(),
        |i: int|
            if i == 0 {
                0
            } else {
                wrapped_sub(es[i].0, es[i - 1].0)
            },
    )
}

/// The greatest of the values.
pub open spec fn max_of(s: Seq<u64>) -> u64
    decreases s.len(),
{
    if s.len() == 0 {
        0
    } else if s.last() > max_of(s.drop_last()) {
        s.last()
    } else {
        max_of(s.drop_last())
    }
}

/// The bits of the gaps of a leaf.
pub open spec fn gap_width(es: Seq<Entry>) -> nat {
    bits::bit_length(max_of(doc_gaps(es)) as nat)
}

/// The head of a leaf.
pub open spec fn leaf_head(cell: Cell, es: Seq<Entry>) -> LeafHead {
    LeafHead {
        count: es.len() as u32,
        cell,
        doc_id_base: es[0].0,
        doc_id_bits: gap_width(es) as u8,
    }
}

/// The bytes of a leaf.
pub open spec fn put_leaf(cell: Cell, es: Seq<Entry>, num_dims: nat) -> Seq<u8> {
    spec_u32_to_le_bytes(es.len() as u32) + (put_cell(cell) + (spec_u64_to_le_bytes(es[0].0) + (
    seq![gap_width(es) as u8] + (put_sections(cell, es, num_dims) + bits::packed(
        doc_gaps(es),
        gap_width(es),
    )))))
}

/// The bytes of all leaves, from the left to the right.
pub open spec fn put_leaves(plan: Plan, num_dims: nat) -> Seq<u8>
    decreases plan,
{
    match plan {
        Plan::Leaf { cell, entries } => put_leaf(cell, entries, num_dims),
        Plan::Node { cell, split_dim, split_value, left, right } => put_leaves(*left, num_dims)
            + put_leaves(*right, num_dims),
    }
}

/// Where a subtree stands: a leaf at a position of the file, a division at a
/// place of the index.
pub enum Place {
    At { position: int },
    Slot { slot: int },
}

/// A division whose subtrees are known by their places.
pub struct Draft {
    pub split_dim: u32,
    pub split_value: u64,
    pub left_cell: Cell,
    pub right_cell: Cell,
    pub left: Place,
    pub right: Place,
}

/// Where a subtree stands whose first leaf is at `position` and whose first
/// division has place `slot`.
pub open spec fn place_of(plan: Plan, position: int, slot: int) -> Place {
    match plan {
        Plan::Leaf { cell, entries } => Place::At { position },
        Plan::Node { cell, split_dim, split_value, left, right } => Place::Slot { slot },
    }
}

/// The divisions, each in front of those of its left and of its right subtree.
pub open spec fn drafts(plan: Plan, num_dims: nat, position: int, slot: int) -> Seq<Draft>
    decreases plan,
{
    match plan {
        Plan::Leaf { cell, entries } => Seq::empty(),
        Plan::Node { cell, split_dim, split_value, left, right } => {
            let middle = position + put_leaves(*left, num_dims).len();
            let next = slot + 1 + left.nodes();
            seq![
                Draft {
                    split_dim,
                    split_value,
                    left_cell: left.cell(),
                    right_cell: right.cell(),
                    left: place_of(*left, position, slot + 1),
                    right: place_of(*right, middle, next),
                },
            ] + (drafts(*left, num_dims, position, slot + 1) + drafts(
                *right,
                num_dims,
                middle,
                next,
            ))
        },
    }
}

/// The offset of a place in a file whose index starts at `index_start`.
pub open spec fn offset_of(place: Place, num_dims: int, index_start: int) -> u64 {
    match place {
        Place::At { position } => position as u64,
        Place::Slot { slot } => (index_start + slot * node_len(num_dims)) as u64,
    }
}

/// The node of a division in a file whose index starts at `index_start`.
pub open spec fn resolved(num_dims: int, index_start: int) -> spec_fn(Draft) -> NodeView {
    |d: Draft|
        NodeView {
            split_dim: d.split_dim,
            split_value: d.split_value,
            left_cell: d.left_cell,
            right_cell: d.right_cell,
            left_offset: offset_of(d.left, num_dims, index_start),
            right_offset: offset_of(d.right, num_dims, index_start),
        }
}

/// The bytes of an index.
pub open spec fn put_index(ds: Seq<Draft>, num_dims: int, index_start: int) -> Seq<u8> {
    codec::put_many(put_node(), ds.map_values(resolved(num_dims, index_start)))
}

/// The header of a file of the points `es`.
pub open spec fn plan_header(es: Seq<Entry>, num_dims: u32, block_size: u32, plan: Plan) -> HeaderView {
    let start = header_size(num_dims as int);
    let index_start = start + put_leaves(plan, num_dims as nat).len();
    let global = bounds(es, num_dims as nat, floats::MAX_FINITE, floats::MIN_FINITE);
    HeaderView {
        num_dims,
        total: es.len() as u64,
        num_blocks: plan.leaves() as u64,
        block_size,
        min: global.min,
        max: global.max,
        index_start: index_start as u64,
        root: offset_of(place_of(plan, start, 0), num_dims as int, index_start),
    }
}

/// The bytes of a file of the points `es`.
pub open spec fn put_file(es: Seq<Entry>, num_dims: u32, block_size: u32, plan: Plan) -> Seq<u8> {
    let start = header_size(num_dims as int);
    let leaves = put_leaves(plan, num_dims as nat);
    put_header(plan_header(es, num_dims, block_size, plan)) + (leaves + put_index(
        drafts(plan, num_dims as nat, start, 0),
        num_dims as int,
        start + leaves.len(),
    ))
}

/// The header of a file without points.
pub open spec fn empty_header(num_dims: u32, block_size: u32) -> HeaderView {
    HeaderView {
        num_dims,
        total: 0,
        num_blocks: 0,
        block_size,
        min: Seq::new(num_dims as nat, |d: int| floats::MAX_FINITE),
        max: Seq::new(num_dims as nat, |d: int| floats::MIN_FINITE),
        index_start: 0,
        root: 0,
    }
}

// ---------------------------------------------------------------------------
// Reading gives back what was written
// ---------------------------------------------------------------------------

/// Whether every point has `num_dims` coordinates.
pub open spec fn points_have(es: Seq<Entry>, num_dims: nat) -> bool {
    forall|i: int| 0 <= i < es.len() ==> (#[trigger] es[i]).1.len() == num_dims
}

/// Whether every point lies in a cell.
pub open spec fn points_in(es: Seq<Entry>, cell: Cell) -> bool {
    forall|i: int| 0 <= i < es.len() ==> visitor::in_cell((#[trigger] es[i]).1, cell)
}

/// Whether the documents ascend; one may occur more than once.
pub open spec fn docs_ascend(es: Seq<Entry>) -> bool {
    forall|i: int, j: int| 0 <= i < j < es.len() ==> (#[trigger] es[i]).0 <= (#[trigger] es[j]).0
}

/// The same entries, each as often.
pub open spec fn same_entries(a: Seq<Entry>, b: Seq<Entry>) -> bool {
    &&& a.len() == b.len()
    &&& forall|e: Entry| #[trigger] a.contains(e) <==> b.contains(e)
}

/// No coordinate is less than the least, and none greater than the greatest.
pub proof fn lemma_least(es: Seq<Entry>, d: int, low: u64, high: u64, i: int)
    requires
        0 <= i < es.len(),
    ensures
        floats::sortable(least(es, d, low)) <= floats::sortable(es[i].1[d]),
        floats::sortable(es[i].1[d]) <= floats::sortable(greatest(es, d, high)),
    decreases es.len(),
{
    floats::lemma_sortable_order(least(es.drop_last(), d, low), es.last().1[d]);
    floats::lemma_sortable_order(es.last().1[d], greatest(es.drop_last(), d, high));
    if i < es.len() - 1 {
        lemma_least(es.drop_last(), d, low, high, i);
        assert(es.drop_last()[i] == es[i]);
    }
}

/// Points lie in their bounds.
pub proof fn lemma_points_in_bounds(es: Seq<Entry>, num_dims: nat, low: u64, high: u64)
    requires
        points_have(es, num_dims),
    ensures
        points_in(es, bounds(es, num_dims, low, high)),
{
    let cell = bounds(es, num_dims, low, high);
    assert forall|i: int| 0 <= i < es.len() implies visitor::in_cell((#[trigger] es[i]).1, cell) by {
        assert forall|d: int| 0 <= d < num_dims implies floats::sortable(cell.min[d])
            <= #[trigger] floats::sortable(es[i].1[d]) <= floats::sortable(cell.max[d]) by {
            lemma_least(es, d, low, high, i);
        }
    }
}

proof fn lemma_least_is_number(es: Seq<Entry>, d: int, low: u64, high: u64)
    requires
        !floats::is_nan(low),
        !floats::is_nan(high),
        forall|i: int| 0 <= i < es.len() ==> !floats::is_nan((#[trigger] es[i]).1[d]),
    ensures
        !floats::is_nan(least(es, d, low)),
        !floats::is_nan(greatest(es, d, high)),
    decreases es.len(),
{
    if es.len() > 0 {
        assert forall|i: int| 0 <= i < es.drop_last().len() implies !floats::is_nan(
            (#[trigger] es.drop_last()[i]).1[d],
        ) by {
            assert(es.drop_last()[i] == es[i]);
        }
        lemma_least_is_number(es.drop_last(), d, low, high);
        assert(!floats::is_nan(es[es.len() - 1].1[d]));
    }
}

/// Another order holds the same entries.
proof fn lemma_permuted(es: Seq<Entry>, keys: Seq<u64>)
    requires
        keys.len() == es.len(),
        es.len() <= usize::MAX,
    ensures
        same_entries(permuted(es, sort::order_of(keys)), es),
{
    let order = sort::order_of(keys);
    let p = permuted(es, order);
    sort::lemma_order_of(keys);
    assert forall|e: Entry| #[trigger] p.contains(e) implies es.contains(e) by {
        let i = choose|i: int| 0 <= i < p.len() && p[i] == e;
        assert(order[i] < keys.len());
        assert(es[order[i] as int] == e);
    }
    assert forall|e: Entry| es.contains(e) implies #[trigger] p.contains(e) by {
        let k = choose|k: int| 0 <= k < es.len() && es[k] == e;
        assert(order.contains(k as usize));
        let i = choose|i: int| 0 <= i < order.len() && order[i] == k as usize;
        assert(p[i] == e);
    }
}

/// What holds of the points holds of them in another order.
proof fn lemma_same_entries(a: Seq<Entry>, b: Seq<Entry>, num_dims: nat, cell: Cell)
    requires
        same_entries(a, b),
    ensures
        points_have(b, num_dims) ==> points_have(a, num_dims),
        points_in(b, cell) ==> points_in(a, cell),
{
    assert forall|i: int| 0 <= i < a.len() implies b.contains(#[trigger] a[i]) by {
        assert(a.contains(a[i]));
    }
}

/// Entries by document are the same entries with their documents ascending;
/// entries of one document keep their order.
pub proof fn lemma_by_doc(es: Seq<Entry>)
    requires
        es.len() <= usize::MAX,
    ensures
        same_entries(by_doc(es), es),
        docs_ascend(by_doc(es)),
{
    let keys = doc_keys(es);
    let order = sort::order_of(keys);
    let p = by_doc(es);
    lemma_permuted(es, keys);
    sort::lemma_order_of(keys);
    assert forall|i: int, j: int| 0 <= i < j < p.len() implies (#[trigger] p[i]).0
        <= (#[trigger] p[j]).0 by {
        assert(sort::key_before(keys, order[i] as int, order[j] as int));
        assert(order[i] < keys.len() && order[j] < keys.len());
    }
}

proof fn lemma_max_of(s: Seq<u64>, i: int)
    requires
        0 <= i < s.len(),
    ensures
        s[i] <= max_of(s),
    decreases s.len(),
{
    if i < s.len() - 1 {
        lemma_max_of(s.drop_last(), i);
        assert(s.drop_last()[i] == s[i]);
    }
}

/// The gaps of a leaf fit in its bits.
proof fn lemma_gaps_fit(es: Seq<Entry>)
    ensures
        bits::values_fit(doc_gaps(es), gap_width(es)),
        gap_width(es) <= 64,
{
    let gaps = doc_gaps(es);
    bits::lemma_bit_length(0, max_of(gaps) as nat);
    assert forall|i: int| 0 <= i < gaps.len() implies (#[trigger] gaps[i]) < vstd::arithmetic::power2::pow2(
        gap_width(es),
    ) by {
        lemma_max_of(gaps, i);
        bits::lemma_bit_length(gaps[i] as nat, max_of(gaps) as nat);
    }
}

/// The distances of a leaf fit in the bits of their dimension.
proof fn lemma_deltas_fit(cell: Cell, es: Seq<Entry>, d: int)
    requires
        points_in(es, cell),
        0 <= d < cell.min.len(),
    ensures
        bits::values_fit(column_deltas(cell, es, d), coordinate_width(cell, d)),
        coordinate_width(cell, d) <= 64,
        forall|i: int|
            0 <= i < es.len() ==> floats::unsortable(
                wrapped_add(
                    floats::sortable(cell.min[d]),
                    #[trigger] column_deltas(cell, es, d)[i],
                ),
            ) == es[i].1[d],
{
    let deltas = column_deltas(cell, es, d);
    let span = wrapped_sub(floats::sortable(cell.max[d]), floats::sortable(cell.min[d]));
    bits::lemma_bit_length(0, span as nat);
    assert forall|i: int| 0 <= i < deltas.len() implies (#[trigger] deltas[i]) < vstd::arithmetic::power2::pow2(
        coordinate_width(cell, d),
    ) by {
        assert(visitor::in_cell(es[i].1, cell));
        assert(floats::sortable(cell.min[d]) <= floats::sortable(es[i].1[d]) <= floats::sortable(
            cell.max[d],
        ));
        bits::lemma_bit_length(deltas[i] as nat, span as nat);
    }
    assert forall|i: int| 0 <= i < es.len() implies floats::unsortable(
        wrapped_add(floats::sortable(cell.min[d]), #[trigger] deltas[i]),
    ) == es[i].1[d] by {
        assert(visitor::in_cell(es[i].1, cell));
        assert(floats::sortable(cell.min[d]) <= floats::sortable(es[i].1[d]));
        floats::lemma_sortable_round_trip(es[i].1[d]);
    }
}

/// The packed coordinates take the bytes that the bounds call for, and each
/// coordinate reads back.
proof fn lemma_sections_round_trip(b: Seq<u8>, q: int, cell: Cell, es: Seq<Entry>, n: nat, head: LeafHead)
    requires
        codec::stands_at(b, q, put_sections(cell, es, n)),
        points_in(es, cell),
        n <= cell.min.len(),
        head.cell == cell,
        head.count == es.len(),
    ensures
        put_sections(cell, es, n).len() == sections_len(cell, es.len(), n),
        forall|i: int, d: int|
            0 <= i < es.len() && 0 <= d < n ==> #[trigger] leaf_coordinate(b, q, head, i, d)
                == es[i].1[d],
    decreases n,
{
    if n > 0 {
        let d = n - 1;
        let deltas = column_deltas(cell, es, d);
        let width = coordinate_width(cell, d);
        let before = put_sections(cell, es, d as nat);
        codec::lemma_stands_split(b, q, before, bits::packed(deltas, width));
        lemma_sections_round_trip(b, q, cell, es, d as nat, head);
        lemma_deltas_fit(cell, es, d);
        bits::lemma_packed_fits(deltas, width);
        assert forall|i: int| 0 <= i < es.len() implies #[trigger] leaf_coordinate(b, q, head, i, d)
            == es[i].1[d] by {
            bits::lemma_unpack(deltas, width, i);
            let start = q + sections_len(cell, es.len(), d as nat);
            assert(b.subrange(start, start + bits::packed_len(es.len(), width)) == bits::packed(
                deltas,
                width,
            ));
            assert(deltas[i] == column_deltas(cell, es, d)[i]);
        }
    }
}

/// The documents of a leaf read back from their gaps.
proof fn lemma_ids_round_trip(section: Seq<u8>, es: Seq<Entry>, head: LeafHead, n: nat)
    requires
        section == bits::packed(doc_gaps(es), gap_width(es)),
        docs_ascend(es),
        es.len() > 0,
        n <= es.len(),
        head.doc_id_base == es[0].0,
        head.doc_id_bits == gap_width(es),
    ensures
        running_ids(section, head, n) == ids_of(es).take(n as int),
    decreases n,
{
    if n > 0 {
        lemma_ids_round_trip(section, es, head, (n - 1) as nat);
        lemma_gaps_fit(es);
        bits::lemma_unpack(doc_gaps(es), gap_width(es), n - 1);
        let before = running_ids(section, head, (n - 1) as nat);
        if n > 1 {
            assert(before.last() == es[n - 2].0);
            assert(es[n - 2].0 <= es[n - 1].0);
        }
        assert(running_ids(section, head, n) =~= ids_of(es).take(n as int));
    } else {
        assert(running_ids(section, head, n) =~= ids_of(es).take(n as int));
    }
}

/// The head of a leaf reads back.
#[verifier::spinoff_prover]
proof fn lemma_leaf_head_round_trip(b: Seq<u8>, p: int, h: HeaderView, cell: Cell, es: Seq<Entry>)
    requires
        codec::stands_at(b, p, put_leaf(cell, es, h.num_dims as nat)),
        0 < es.len() <= u32::MAX,
        es.len() <= h.total,
        es.len() <= h.block_size,
        points_in(es, cell),
        cell.min.len() == h.num_dims,
        cell.max.len() == h.num_dims,
    ensures
        ({
            let q = p + 13 + 16 * h.num_dims;
            let sections = put_sections(cell, es, h.num_dims as nat);
            let gaps = bits::packed(doc_gaps(es), gap_width(es));
            &&& take_leaf_head(b, p, h) == Ok::<(LeafHead, int), LaurusError>(
                (leaf_head(cell, es), q),
            )
            &&& codec::stands_at(b, q, sections)
            &&& codec::stands_at(b, q + sections.len(), gaps)
            &&& sections.len() == sections_len(cell, es.len(), h.num_dims as nat)
            &&& gaps.len() == bits::packed_len(es.len(), gap_width(es))
        }),
{
    lemma_auto_spec_u32_to_from_le_bytes();
    lemma_auto_spec_u64_to_from_le_bytes();
    let num_dims = h.num_dims as nat;
    let count = spec_u32_to_le_bytes(es.len() as u32);
    let mins = codec::put_many(codec::put_u64(), cell.min);
    let maxs = codec::put_many(codec::put_u64(), cell.max);
    let base = spec_u64_to_le_bytes(es[0].0);
    let width = seq![gap_width(es) as u8];
    let sections = put_sections(cell, es, num_dims);
    let gaps = bits::packed(doc_gaps(es), gap_width(es));
    codec::lemma_stands_split(b, p, count, put_cell(cell) + (base + (width + (sections + gaps))));
    codec::lemma_stands_split(b, p + 4, put_cell(cell), base + (width + (sections + gaps)));
    codec::lemma_stands_split(b, p + 4, mins, maxs);
    codec::lemma_u64s_len(cell.min);
    codec::lemma_u64s_len(cell.max);
    let p1 = p + 4 + 16 * h.num_dims;
    codec::lemma_stands_split(b, p1, base, width + (sections + gaps));
    codec::lemma_stands_split(b, p1 + 8, width, sections + gaps);
    codec::lemma_stands_split(b, p1 + 9, sections, gaps);
    codec::lemma_u32_round_trip(b, p, es.len() as u32, "BKD leaf");
    codec::lemma_u64s_round_trip(b, p + 4, cell.min, "BKD leaf");
    codec::lemma_u64s_round_trip(b, p + 4 + 8 * h.num_dims, cell.max, "BKD leaf");
    codec::lemma_u64_round_trip(b, p1, es[0].0, "BKD leaf");
    codec::lemma_stands_byte(b, p1 + 8, width, 0);
    lemma_gaps_fit(es);
    bits::lemma_packed_fits(doc_gaps(es), gap_width(es));
    lemma_sections_round_trip(b, p1 + 9, cell, es, num_dims, leaf_head(cell, es));
}

/// A leaf reads back.
#[verifier::spinoff_prover]
pub proof fn lemma_leaf_round_trip(b: Seq<u8>, p: u64, h: HeaderView, cell: Cell, es: Seq<Entry>)
    requires
        codec::stands_at(b, p as int, put_leaf(cell, es, h.num_dims as nat)),
        0 < es.len() <= u32::MAX,
        es.len() <= h.total,
        es.len() <= h.block_size,
        points_in(es, cell),
        points_have(es, h.num_dims as nat),
        docs_ascend(es),
        cell.min.len() == h.num_dims,
        cell.max.len() == h.num_dims,
    ensures
        leaf_at(b, h, p) == (Tree::Leaf { cell, entries: Ok(es) }),
{
    let num_dims = h.num_dims as nat;
    let q = p + 13 + 16 * h.num_dims;
    let head = leaf_head(cell, es);
    lemma_leaf_head_round_trip(b, p as int, h, cell, es);
    lemma_gaps_fit(es);
    lemma_sections_round_trip(b, q, cell, es, num_dims, head);
    let section = gaps_section(b, q, head, num_dims);
    assert(section == bits::packed(doc_gaps(es), gap_width(es)));
    bits::lemma_unpack(doc_gaps(es), gap_width(es), 0);
    assert(0 * gap_width(es) == 0) by (nonlinear_arith);
    lemma_ids_round_trip(section, es, head, es.len());
    assert(ids_of(es).take(es.len() as int) =~= ids_of(es));
    let points = leaf_points(b, q, head, num_dims);
    assert forall|i: int| 0 <= i < es.len() implies points[i] == es[i].1 by {
        assert(es[i].1.len() == num_dims);
        assert forall|d: int| 0 <= d < num_dims implies points[i][d] == es[i].1[d] by {
            assert(points[i][d] == leaf_coordinate(b, q, head, i, d));
        }
        assert(points[i] =~= es[i].1);
    }
    assert(zip_entries(ids_of(es), points) =~= es);
}

/// Whether a node has bounds of `num_dims` dimensions.
pub open spec fn node_has(node: NodeView, num_dims: nat) -> bool {
    &&& node.left_cell.min.len() == num_dims
    &&& node.left_cell.max.len() == num_dims
    &&& node.right_cell.min.len() == num_dims
    &&& node.right_cell.max.len() == num_dims
}

proof fn lemma_cell_len(cell: Cell)
    ensures
        put_cell(cell).len() == 8 * cell.min.len() + 8 * cell.max.len(),
{
    codec::lemma_u64s_len(cell.min);
    codec::lemma_u64s_len(cell.max);
}

/// Bounds read back.
proof fn lemma_cell_round_trip(b: Seq<u8>, p: int, cell: Cell, num_dims: u32, what: &'static str)
    requires
        codec::stands_at(b, p, put_cell(cell)),
        cell.min.len() == num_dims,
        cell.max.len() == num_dims,
    ensures
        take_cell(b, p, num_dims, what) == Ok::<(Cell, int), LaurusError>(
            (cell, p + 16 * num_dims),
        ),
{
    let mins = codec::put_many(codec::put_u64(), cell.min);
    let maxs = codec::put_many(codec::put_u64(), cell.max);
    codec::lemma_stands_split(b, p, mins, maxs);
    codec::lemma_u64s_round_trip(b, p, cell.min, what);
    codec::lemma_u64s_round_trip(b, p + 8 * num_dims, cell.max, what);
}

proof fn lemma_node_len(node: NodeView, num_dims: nat)
    requires
        node_has(node, num_dims),
    ensures
        put_node()(node).len() == node_len(num_dims as int),
{
    lemma_auto_spec_u32_to_from_le_bytes();
    lemma_auto_spec_u64_to_from_le_bytes();
    lemma_cell_len(node.left_cell);
    lemma_cell_len(node.right_cell);
}

/// An index node reads back.
#[verifier::spinoff_prover]
proof fn lemma_node_round_trip(b: Seq<u8>, p: int, node: NodeView, num_dims: u32)
    requires
        codec::stands_at(b, p, put_node()(node)),
        node_has(node, num_dims as nat),
    ensures
        take_node(b, p, num_dims) == Ok::<(NodeView, int), LaurusError>(
            (node, p + node_len(num_dims as int)),
        ),
{
    lemma_auto_spec_u32_to_from_le_bytes();
    lemma_auto_spec_u64_to_from_le_bytes();
    lemma_cell_len(node.left_cell);
    lemma_cell_len(node.right_cell);
    let dim = spec_u32_to_le_bytes(node.split_dim);
    let value = spec_u64_to_le_bytes(node.split_value);
    let left = put_cell(node.left_cell);
    let right = put_cell(node.right_cell);
    let lo = spec_u64_to_le_bytes(node.left_offset);
    let ro = spec_u64_to_le_bytes(node.right_offset);
    codec::lemma_stands_split(b, p, dim, value + (left + (right + (lo + ro))));
    codec::lemma_stands_split(b, p + 4, value, left + (right + (lo + ro)));
    codec::lemma_stands_split(b, p + 12, left, right + (lo + ro));
    let p1 = p + 12 + 16 * num_dims;
    codec::lemma_stands_split(b, p1, right, lo + ro);
    let p2 = p1 + 16 * num_dims;
    codec::lemma_stands_split(b, p2, lo, ro);
    codec::lemma_u32_round_trip(b, p, node.split_dim, "BKD node");
    codec::lemma_u64_round_trip(b, p + 4, node.split_value, "BKD node");
    lemma_cell_round_trip(b, p + 12, node.left_cell, num_dims, "BKD node");
    lemma_cell_round_trip(b, p1, node.right_cell, num_dims, "BKD node");
    codec::lemma_u64_round_trip(b, p2, node.left_offset, "BKD node");
    codec::lemma_u64_round_trip(b, p2 + 8, node.right_offset, "BKD node");
}

/// What is divided up stays the same points, and the bounds of every part have
/// its dimensions.
proof fn lemma_divides_points<F: Fn(u64, u64) -> u64>(
    subtract: F,
    es: Seq<Entry>,
    num_dims: nat,
    block_size: nat,
    plan: Plan,
)
    requires
        divides(subtract, es, num_dims, block_size, plan),
        points_have(es, num_dims),
        es.len() <= u32::MAX,
    ensures
        plan.cell().min.len() == num_dims,
        plan.cell().max.len() == num_dims,
        points_in(es, plan.cell()),
        plan matches Plan::Leaf { cell, entries } ==> {
            &&& same_entries(entries, es)
            &&& points_in(entries, cell)
            &&& points_have(entries, num_dims)
            &&& docs_ascend(entries)
        },
        plan matches Plan::Node { cell, split_dim, split_value, left, right } ==> {
            let sorted = by_coordinate(es, split_dim as int);
            let mid = es.len() as int / 2;
            &&& same_entries(sorted, es)
            &&& points_have(sorted.take(mid), num_dims)
            &&& points_have(sorted.skip(mid), num_dims)
            &&& points_in(sorted.take(mid), cell)
            &&& points_in(sorted.skip(mid), cell)
        },
{
    lemma_points_in_bounds(es, num_dims, floats::INFINITY, floats::NEG_INFINITY);
    match plan {
        Plan::Leaf { cell, entries } => {
            lemma_by_doc(es);
            lemma_same_entries(entries, es, num_dims, cell);
        },
        Plan::Node { cell, split_dim, split_value, left, right } => {
            let sorted = by_coordinate(es, split_dim as int);
            lemma_permuted(es, coordinate_keys(es, split_dim as int));
            lemma_same_entries(sorted, es, num_dims, cell);
        },
    }
}

/// There is a draft for each division, with bounds of the right dimensions.
proof fn lemma_drafts<F: Fn(u64, u64) -> u64>(
    subtract: F,
    es: Seq<Entry>,
    num_dims: nat,
    block_size: nat,
    plan: Plan,
    position: int,
    slot: int,
    index_start: int,
)
    requires
        divides(subtract, es, num_dims, block_size, plan),
        points_have(es, num_dims),
        es.len() <= u32::MAX,
    ensures
        drafts(plan, num_dims, position, slot).len() == plan.nodes(),
        put_index(drafts(plan, num_dims, position, slot), num_dims as int, index_start).len()
            == plan.nodes() * node_len(num_dims as int),
        plan.nodes() < es.len(),
        plan.leaves() == plan.nodes() + 1,
    decreases plan,
{
    lemma_divides_points(subtract, es, num_dims, block_size, plan);
    let ds = drafts(plan, num_dims, position, slot);
    let f = resolved(num_dims as int, index_start);
    match plan {
        Plan::Leaf { cell, entries } => {
            assert(ds.map_values(f) =~= Seq::empty());
            assert(0 * node_len(num_dims as int) == 0) by (nonlinear_arith);
        },
        Plan::Node { cell, split_dim, split_value, left, right } => {
            let sorted = by_coordinate(es, split_dim as int);
            let mid = es.len() as int / 2;
            let middle = position + put_leaves(*left, num_dims).len();
            let next = slot + 1 + left.nodes();
            lemma_drafts(
                subtract,
                sorted.take(mid),
                num_dims,
                block_size,
                *left,
                position,
                slot + 1,
                index_start,
            );
            lemma_drafts(
                subtract,
                sorted.skip(mid),
                num_dims,
                block_size,
                *right,
                middle,
                next,
                index_start,
            );
            lemma_divides_points(subtract, sorted.take(mid), num_dims, block_size, *left);
            lemma_divides_points(subtract, sorted.skip(mid), num_dims, block_size, *right);
            let a = drafts(*left, num_dims, position, slot + 1);
            let c = drafts(*right, num_dims, middle, next);
            lemma_index_split(ds[0], a, c, num_dims as int, index_start);
            assert(ds =~= seq![ds[0]] + (a + c));
            lemma_node_len(f(ds[0]), num_dims);
            assert(plan.nodes() * node_len(num_dims as int) == node_len(num_dims as int)
                + left.nodes() * node_len(num_dims as int) + right.nodes() * node_len(
                num_dims as int,
            )) by (nonlinear_arith)
                requires
                    plan.nodes() == 1 + left.nodes() + right.nodes(),
            ;
        },
    }
}

/// The index of a division and of its subtrees.
proof fn lemma_index_split(
    d: Draft,
    a: Seq<Draft>,
    c: Seq<Draft>,
    num_dims: int,
    index_start: int,
)
    ensures
        put_index(seq![d] + (a + c), num_dims, index_start) == put_node()(
            resolved(num_dims, index_start)(d),
        ) + (put_index(a, num_dims, index_start) + put_index(c, num_dims, index_start)),
{
    let f = resolved(num_dims, index_start);
    let one = seq![f(d)];
    assert((seq![d] + (a + c)).map_values(f) =~= one + (a.map_values(f) + c.map_values(f)));
    codec::lemma_put_many_append(put_node(), one, a.map_values(f) + c.map_values(f));
    codec::lemma_put_many_append(put_node(), a.map_values(f), c.map_values(f));
    assert(one.drop_last() =~= Seq::empty());
    assert(codec::put_many(put_node(), one.drop_last()) =~= Seq::empty());
    assert(codec::put_many(put_node(), one) =~= put_node()(f(d)));
}

/// A leaf takes at least one byte.
proof fn lemma_leaves_nonempty(plan: Plan, num_dims: nat)
    ensures
        put_leaves(plan, num_dims).len() > 0,
    decreases plan,
{
    lemma_auto_spec_u32_to_from_le_bytes();
    match plan {
        Plan::Leaf { cell, entries } => {},
        Plan::Node { cell, split_dim, split_value, left, right } => {
            lemma_leaves_nonempty(*left, num_dims);
        },
    }
}

/// A tree reads back from its leaves and its index.
#[verifier::spinoff_prover]
#[verifier::rlimit(40)]
proof fn lemma_tree_round_trip<F: Fn(u64, u64) -> u64>(
    subtract: F,
    es: Seq<Entry>,
    plan: Plan,
    b: Seq<u8>,
    h: HeaderView,
    position: int,
    slot: int,
    fuel: nat,
)
    requires
        divides(subtract, es, h.num_dims as nat, h.block_size as nat, plan),
        points_have(es, h.num_dims as nat),
        es.len() <= u32::MAX,
        es.len() <= h.total,
        0 <= position,
        0 <= slot,
        position + put_leaves(plan, h.num_dims as nat).len() <= h.index_start,
        codec::stands_at(b, position, put_leaves(plan, h.num_dims as nat)),
        codec::stands_at(
            b,
            h.index_start + slot * node_len(h.num_dims as int),
            put_index(
                drafts(plan, h.num_dims as nat, position, slot),
                h.num_dims as int,
                h.index_start as int,
            ),
        ),
        b.len() <= u64::MAX,
        fuel >= plan.nodes(),
    ensures
        tree_at(
            b,
            h,
            offset_of(place_of(plan, position, slot), h.num_dims as int, h.index_start as int),
            fuel,
        ) == plan.tree(),
    decreases plan,
{
    let num_dims = h.num_dims as nat;
    let size = node_len(num_dims as int);
    let start = h.index_start as int;
    lemma_divides_points(subtract, es, num_dims, h.block_size as nat, plan);
    lemma_leaves_nonempty(plan, num_dims);
    match plan {
        Plan::Leaf { cell, entries } => {
            lemma_leaf_round_trip(b, position as u64, h, cell, entries);
        },
        Plan::Node { cell, split_dim, split_value, left, right } => {
            let sorted = by_coordinate(es, split_dim as int);
            let mid = es.len() as int / 2;
            let middle = position + put_leaves(*left, num_dims).len();
            let next = slot + 1 + left.nodes();
            let block_size = h.block_size as nat;
            lemma_drafts(
                subtract,
                sorted.take(mid),
                num_dims,
                block_size,
                *left,
                position,
                slot + 1,
                start,
            );
            lemma_drafts(subtract, sorted.skip(mid), num_dims, block_size, *right, middle, next, start);
            lemma_divides_points(subtract, sorted.take(mid), num_dims, block_size, *left);
            lemma_divides_points(subtract, sorted.skip(mid), num_dims, block_size, *right);
            let ds = drafts(plan, num_dims, position, slot);
            let a = drafts(*left, num_dims, position, slot + 1);
            let c = drafts(*right, num_dims, middle, next);
            let node = resolved(num_dims as int, start)(ds[0]);
            lemma_index_split(ds[0], a, c, num_dims as int, start);
            assert(ds =~= seq![ds[0]] + (a + c));
            lemma_node_len(node, num_dims);
            let at = start + slot * size;
            let ia = put_index(a, num_dims as int, start);
            let ic = put_index(c, num_dims as int, start);
            codec::lemma_stands_split(b, at, put_node()(node), ia + ic);
            codec::lemma_stands_split(b, at + size, ia, ic);
            assert(start + (slot + 1) * size == at + size) by (nonlinear_arith)
                requires
                    at == start + slot * size,
            ;
            assert(start + next * size == at + size + left.nodes() * size) by (nonlinear_arith)
                requires
                    at == start + slot * size,
                    next == slot + 1 + left.nodes(),
            ;
            assert(slot * size >= 0) by (nonlinear_arith)
                requires
                    slot >= 0,
                    size >= 0,
            ;
            codec::lemma_stands_split(
                b,
                position,
                put_leaves(*left, num_dims),
                put_leaves(*right, num_dims),
            );
            lemma_tree_round_trip(
                subtract,
                sorted.take(mid),
                *left,
                b,
                h,
                position,
                slot + 1,
                (fuel - 1) as nat,
            );
            lemma_tree_round_trip(
                subtract,
                sorted.skip(mid),
                *right,
                b,
                h,
                middle,
                next,
                (fuel - 1) as nat,
            );
            lemma_node_round_trip(b, at, node, h.num_dims);
        },
    }
}

/// A header reads back.
#[verifier::spinoff_prover]
#[verifier::rlimit(40)]
pub proof fn lemma_header_round_trip(b: Seq<u8>, h: HeaderView)
    requires
        codec::stands_at(b, 0, put_header(h)),
        h.min.len() == h.num_dims,
        h.max.len() == h.num_dims,
    ensures
        take_header(b) == Ok::<HeaderView, LaurusError>(h),
        put_header(h).len() == header_size(h.num_dims as int),
{
    lemma_auto_spec_u32_to_from_le_bytes();
    lemma_auto_spec_u64_to_from_le_bytes();
    codec::lemma_u64s_len(h.min);
    codec::lemma_u64s_len(h.max);
    let magic = spec_u32_to_le_bytes(BKD_MAGIC);
    let version = spec_u32_to_le_bytes(BKD_VERSION);
    let dims = spec_u32_to_le_bytes(h.num_dims);
    let per_dim = spec_u32_to_le_bytes(BYTES_PER_DIM);
    let total = spec_u64_to_le_bytes(h.total);
    let blocks = spec_u64_to_le_bytes(h.num_blocks);
    let block_size = spec_u32_to_le_bytes(h.block_size);
    let mins = codec::put_many(codec::put_u64(), h.min);
    let maxs = codec::put_many(codec::put_u64(), h.max);
    let index = spec_u64_to_le_bytes(h.index_start);
    let root = spec_u64_to_le_bytes(h.root);
    let t8 = index + root;
    let t7 = maxs + t8;
    let t6 = mins + t7;
    let t5 = block_size + t6;
    let t4 = blocks + t5;
    let t3 = total + t4;
    let t2 = per_dim + t3;
    let t1 = dims + t2;
    let n = h.num_dims as int;
    codec::lemma_stands_split(b, 0, magic, version + t1);
    codec::lemma_stands_split(b, 4, version, t1);
    codec::lemma_stands_split(b, 8, dims, t2);
    codec::lemma_stands_split(b, 12, per_dim, t3);
    codec::lemma_stands_split(b, 16, total, t4);
    codec::lemma_stands_split(b, 24, blocks, t5);
    codec::lemma_stands_split(b, 32, block_size, t6);
    codec::lemma_stands_split(b, 36, mins, t7);
    codec::lemma_stands_split(b, 36 + 8 * n, maxs, t8);
    codec::lemma_stands_split(b, 36 + 16 * n, index, root);
    codec::lemma_u32_round_trip(b, 0, BKD_MAGIC, "BKD header");
    codec::lemma_u32_round_trip(b, 4, BKD_VERSION, "BKD header");
    codec::lemma_u32_round_trip(b, 8, h.num_dims, "BKD header");
    codec::lemma_u32_round_trip(b, 12, BYTES_PER_DIM, "BKD header");
    codec::lemma_u64_round_trip(b, 16, h.total, "BKD header");
    codec::lemma_u64_round_trip(b, 24, h.num_blocks, "BKD header");
    codec::lemma_u32_round_trip(b, 32, h.block_size, "BKD header");
    codec::lemma_u64s_round_trip(b, 36, h.min, "BKD header");
    codec::lemma_u64s_round_trip(b, 36 + 8 * n, h.max, "BKD header");
    codec::lemma_u64_round_trip(b, 36 + 16 * n, h.index_start, "BKD header");
    codec::lemma_u64_round_trip(b, 44 + 16 * n, h.root, "BKD header");
}

/// A file reads back: its header, and the tree into which its points were
/// divided.
pub proof fn lemma_file_round_trip<F: Fn(u64, u64) -> u64>(
    subtract: F,
    es: Seq<Entry>,
    num_dims: u32,
    block_size: u32,
    plan: Plan,
)
    requires
        divides(subtract, es, num_dims as nat, block_size as nat, plan),
        points_have(es, num_dims as nat),
        es.len() <= u32::MAX,
        put_file(es, num_dims, block_size, plan).len() <= u64::MAX,
    ensures
        ({
            let file = put_file(es, num_dims, block_size, plan);
            let h = plan_header(es, num_dims, block_size, plan);
            &&& take_header(file) == Ok::<HeaderView, LaurusError>(h)
            &&& tree_of_file(file, h) == plan.tree()
        }),
{
    let file = put_file(es, num_dims, block_size, plan);
    let h = plan_header(es, num_dims, block_size, plan);
    let start = header_size(num_dims as int);
    let leaves = put_leaves(plan, num_dims as nat);
    let index_start = start + leaves.len();
    let ds = drafts(plan, num_dims as nat, start, 0);
    let index = put_index(ds, num_dims as int, index_start);
    assert(file.subrange(0, file.len() as int) =~= file);
    codec::lemma_stands_split(file, 0, put_header(h), leaves + index);
    lemma_header_round_trip(file, h);
    codec::lemma_stands_split(file, start, leaves, index);
    lemma_drafts(
        subtract,
        es,
        num_dims as nat,
        block_size as nat,
        plan,
        start,
        0,
        index_start,
    );
    assert(plan.nodes() <= plan.nodes() * node_len(num_dims as int)) by (nonlinear_arith)
        requires
            node_len(num_dims as int) >= 1,
    ;
    assert(0 * node_len(num_dims as int) == 0) by (nonlinear_arith);
    lemma_tree_round_trip(subtract, es, plan, file, h, start, 0, file.len());
}

/// A file without points reads back as the empty tree.
pub proof fn lemma_empty_file_round_trip(num_dims: u32, block_size: u32)
    ensures
        ({
            let h = empty_header(num_dims, block_size);
            let file = put_header(h);
            &&& take_header(file) == Ok::<HeaderView, LaurusError>(h)
            &&& tree_of_file(file, h) == Tree::Empty
        }),
{
    let file = put_header(empty_header(num_dims, block_size));
    assert(file.subrange(0, file.len() as int) =~= file);
    lemma_header_round_trip(file, empty_header(num_dims, block_size));
}

// ---------------------------------------------------------------------------
// A range search finds what lies in the range
// ---------------------------------------------------------------------------

/// Whether a document has a point in the range.
pub open spec fn has_point(es: Seq<Entry>, s: RangeState, id: u64) -> bool {
    exists|e: Entry| #[trigger] es.contains(e) && e.0 == id && visitor::in_range(s, e.1)
}

/// Whether the range of `t` is that of `s`, and its hits are those of `s` and the
/// documents with a point in the range.
pub open spec fn found(s: RangeState, t: RangeState, es: Seq<Entry>) -> bool {
    &&& t == (RangeState { hits: t.hits, ..s })
    &&& forall|id: u64| #[trigger]
        t.hits.contains(id) <==> s.hits.contains(id) || has_point(es, s, id)
}

proof fn lemma_push_contains(hits: Seq<u64>, x: u64)
    ensures
        forall|id: u64| #[trigger] hits.push(x).contains(id) <==> hits.contains(id) || id == x,
{
    assert forall|id: u64| #[trigger] hits.push(x).contains(id) <==> hits.contains(id) || id
        == x by {
        if hits.contains(id) {
            let i = choose|i: int| 0 <= i < hits.len() && hits[i] == id;
            assert(hits.push(x)[i] == id);
        }
        assert(hits.push(x)[hits.len() as int] == x);
    }
}

/// Showing points finds those in the range.
proof fn lemma_visit_finds(es: Seq<Entry>, s: RangeState)
    ensures
        found(s, visitor::visit_all::<RangeQueryVisitor>(s, es), es),
    decreases es.len(),
{
    let t = visitor::visit_all::<RangeQueryVisitor>(s, es);
    if es.len() > 0 {
        let front = es.drop_last();
        let last = es.last();
        lemma_visit_finds(front, s);
        let m = visitor::visit_all::<RangeQueryVisitor>(s, front);
        lemma_push_contains(m.hits, last.0);
        assert(visitor::in_range(m, last.1) == visitor::in_range(s, last.1));
        assert forall|id: u64| #[trigger] t.hits.contains(id) <==> s.hits.contains(id)
            || has_point(es, s, id) by {
            if has_point(front, s, id) {
                let e = choose|e: Entry| #[trigger]
                    front.contains(e) && e.0 == id && visitor::in_range(s, e.1);
                let i = choose|i: int| 0 <= i < front.len() && front[i] == e;
                assert(es[i] == e);
                assert(es.contains(e));
            }
            if has_point(es, s, id) {
                let e = choose|e: Entry| #[trigger]
                    es.contains(e) && e.0 == id && visitor::in_range(s, e.1);
                let i = choose|i: int| 0 <= i < es.len() && es[i] == e;
                if i < front.len() {
                    assert(front[i] == e);
                    assert(front.contains(e));
                    assert(has_point(front, s, id));
                }
            }
            assert(es[es.len() - 1] == last);
            assert(es.contains(last));
            assert(m.hits.contains(id) <==> s.hits.contains(id) || has_point(front, s, id));
        }
    } else {
        assert forall|id: u64| !has_point(es, s, id) by {}
    }
}

/// Taking documents adds them to the hits.
proof fn lemma_enter_finds(es: Seq<Entry>, s: RangeState)
    requires
        forall|i: int| 0 <= i < es.len() ==> visitor::in_range(s, (#[trigger] es[i]).1),
    ensures
        found(s, visitor::enter_all::<RangeQueryVisitor>(s, ids_of(es)), es),
    decreases es.len(),
{
    lemma_enter_is_visit(es, s);
    lemma_visit_finds(es, s);
}

proof fn lemma_enter_is_visit(es: Seq<Entry>, s: RangeState)
    requires
        forall|i: int| 0 <= i < es.len() ==> visitor::in_range(s, (#[trigger] es[i]).1),
    ensures
        visitor::enter_all::<RangeQueryVisitor>(s, ids_of(es))
            == visitor::visit_all::<RangeQueryVisitor>(s, es),
    decreases es.len(),
{
    if es.len() > 0 {
        let front = es.drop_last();
        assert forall|i: int| 0 <= i < front.len() implies visitor::in_range(
            s,
            (#[trigger] front[i]).1,
        ) by {
            assert(front[i] == es[i]);
        }
        lemma_enter_is_visit(front, s);
        lemma_visit_finds(front, s);
        assert(ids_of(es).drop_last() =~= ids_of(front));
        let m = visitor::visit_all::<RangeQueryVisitor>(s, front);
        assert(visitor::in_range(s, es[es.len() - 1].1));
        assert(visitor::in_range(m, es.last().1) == visitor::in_range(s, es.last().1));
    }
}

/// What was found in two parts of the points was found in all of them.
proof fn lemma_found_both(s: RangeState, m: RangeState, t: RangeState, es: Seq<Entry>, mid: int)
    requires
        0 <= mid <= es.len(),
        found(s, m, es.take(mid)),
        found(m, t, es.skip(mid)),
    ensures
        found(s, t, es),
{
    assert forall|id: u64| #[trigger] t.hits.contains(id) <==> s.hits.contains(id) || has_point(
        es,
        s,
        id,
    ) by {
        assert(t.hits.contains(id) <==> m.hits.contains(id) || has_point(es.skip(mid), m, id));
        assert(m.hits.contains(id) <==> s.hits.contains(id) || has_point(es.take(mid), s, id));
        if has_point(es.take(mid), s, id) {
            let e = choose|e: Entry| #[trigger]
                es.take(mid).contains(e) && e.0 == id && visitor::in_range(s, e.1);
            let i = choose|i: int| 0 <= i < mid && es.take(mid)[i] == e;
            assert(es[i] == e);
            assert(es.contains(e));
        }
        if has_point(es.skip(mid), m, id) {
            let e = choose|e: Entry| #[trigger]
                es.skip(mid).contains(e) && e.0 == id && visitor::in_range(m, e.1);
            let i = choose|i: int| 0 <= i < es.skip(mid).len() && es.skip(mid)[i] == e;
            assert(es[mid + i] == e);
            assert(es.contains(e));
            assert(visitor::in_range(s, e.1) == visitor::in_range(m, e.1));
        }
        if has_point(es, s, id) {
            let e = choose|e: Entry| #[trigger]
                es.contains(e) && e.0 == id && visitor::in_range(s, e.1);
            let i = choose|i: int| 0 <= i < es.len() && es[i] == e;
            assert(visitor::in_range(s, e.1) == visitor::in_range(m, e.1));
            if i < mid {
                assert(es.take(mid)[i] == e);
                assert(es.take(mid).contains(e));
            } else {
                assert(es.skip(mid)[i - mid] == e);
                assert(es.skip(mid).contains(e));
            }
        }
    }
}

/// What was found does not depend on the order of the points.
proof fn lemma_found_same(s: RangeState, t: RangeState, a: Seq<Entry>, b: Seq<Entry>)
    requires
        same_entries(a, b),
        found(s, t, a),
    ensures
        found(s, t, b),
{
    assert forall|id: u64| has_point(a, s, id) == has_point(b, s, id) by {
        if has_point(a, s, id) {
            let e = choose|e: Entry| #[trigger]
                a.contains(e) && e.0 == id && visitor::in_range(s, e.1);
            assert(b.contains(e));
        }
        if has_point(b, s, id) {
            let e = choose|e: Entry| #[trigger]
                b.contains(e) && e.0 == id && visitor::in_range(s, e.1);
            assert(a.contains(e));
        }
    }
}

/// Whether no coordinate of the points is NaN.
pub open spec fn points_are_numbers(es: Seq<Entry>) -> bool {
    forall|i: int| 0 <= i < es.len() ==> visitor::all_numbers((#[trigger] es[i]).1)
}

proof fn lemma_cell_numbers(es: Seq<Entry>, num_dims: nat)
    requires
        points_have(es, num_dims),
        points_are_numbers(es),
    ensures
        visitor::all_numbers(cell_of(es, num_dims).min),
        visitor::all_numbers(cell_of(es, num_dims).max),
{
    let cell = cell_of(es, num_dims);
    assert forall|d: int| 0 <= d < num_dims implies !floats::is_nan(cell.min[d]) && !floats::is_nan(
        cell.max[d],
    ) by {
        assert forall|i: int| 0 <= i < es.len() implies !floats::is_nan((#[trigger] es[i]).1[d]) by {
            assert(visitor::all_numbers(es[i].1));
        }
        lemma_least_is_number(es, d, floats::INFINITY, floats::NEG_INFINITY);
    }
}

/// The parts of a division hold numbers.
proof fn lemma_parts_numbers(es: Seq<Entry>, sorted: Seq<Entry>, mid: int)
    requires
        same_entries(sorted, es),
        points_are_numbers(es),
        0 <= mid <= sorted.len(),
    ensures
        points_are_numbers(sorted),
        points_are_numbers(sorted.take(mid)),
        points_are_numbers(sorted.skip(mid)),
{
    assert forall|i: int| 0 <= i < sorted.len() implies visitor::all_numbers(
        (#[trigger] sorted[i]).1,
    ) by {
        assert(sorted.contains(sorted[i]));
        assert(es.contains(sorted[i]));
        let j = choose|j: int| 0 <= j < es.len() && es[j] == sorted[i];
        assert(visitor::all_numbers(es[j].1));
    }
}

/// Taking all documents of points in the range finds them.
proof fn lemma_collect_finds<F: Fn(u64, u64) -> u64>(
    subtract: F,
    es: Seq<Entry>,
    num_dims: nat,
    block_size: nat,
    plan: Plan,
    s: RangeState,
)
    requires
        divides(subtract, es, num_dims, block_size, plan),
        points_have(es, num_dims),
        es.len() <= u32::MAX,
        forall|e: Entry| #[trigger] es.contains(e) ==> visitor::in_range(s, e.1),
    ensures
        collect::<RangeQueryVisitor>(plan.tree(), s).1 is Ok,
        found(s, collect::<RangeQueryVisitor>(plan.tree(), s).0, es),
    decreases plan,
{
    lemma_divides_points(subtract, es, num_dims, block_size, plan);
    match plan {
        Plan::Leaf { cell, entries } => {
            assert forall|i: int| 0 <= i < entries.len() implies visitor::in_range(
                s,
                (#[trigger] entries[i]).1,
            ) by {
                assert(entries.contains(entries[i]));
                assert(es.contains(entries[i]));
            }
            lemma_enter_finds(entries, s);
            lemma_found_same(s, collect::<RangeQueryVisitor>(plan.tree(), s).0, entries, es);
        },
        Plan::Node { cell, split_dim, split_value, left, right } => {
            let sorted = by_coordinate(es, split_dim as int);
            let mid = es.len() as int / 2;
            assert forall|e: Entry| #[trigger] sorted.take(mid).contains(e) implies visitor::in_range(
                s,
                e.1,
            ) by {
                let i = choose|i: int| 0 <= i < mid && sorted.take(mid)[i] == e;
                assert(sorted[i] == e);
                assert(sorted.contains(e));
            }
            lemma_collect_finds(subtract, sorted.take(mid), num_dims, block_size, *left, s);
            let m = collect::<RangeQueryVisitor>(left.tree(), s).0;
            assert forall|e: Entry| #[trigger] sorted.skip(mid).contains(e) implies visitor::in_range(
                m,
                e.1,
            ) by {
                let i = choose|i: int|
                    0 <= i < sorted.skip(mid).len() && sorted.skip(mid)[i] == e;
                assert(sorted[mid + i] == e);
                assert(sorted.contains(e));
                assert(visitor::in_range(s, e.1) == visitor::in_range(m, e.1));
            }
            lemma_collect_finds(subtract, sorted.skip(mid), num_dims, block_size, *right, m);
            let t = collect::<RangeQueryVisitor>(right.tree(), m).0;
            lemma_found_both(s, m, t, sorted, mid);
            lemma_found_same(s, t, sorted, es);
        },
    }
}

/// A part of the points with its bounds.
proof fn lemma_child_finds<F: Fn(u64, u64) -> u64>(
    subtract: F,
    es: Seq<Entry>,
    num_dims: nat,
    block_size: nat,
    plan: Plan,
    s: RangeState,
)
    requires
        divides(subtract, es, num_dims, block_size, plan),
        points_have(es, num_dims),
        points_are_numbers(es),
        es.len() <= u32::MAX,
    ensures
        walk_child::<RangeQueryVisitor>(plan.cell(), plan.tree(), s).1 is Ok,
        found(s, walk_child::<RangeQueryVisitor>(plan.cell(), plan.tree(), s).0, es),
    decreases plan, 1nat,
{
    let cell = plan.cell();
    lemma_divides_points(subtract, es, num_dims, block_size, plan);
    lemma_cell_numbers(es, num_dims);
    assert forall|e: Entry| #[trigger] es.contains(e) implies (visitor::range_relation(s, cell)
        == CellRelation::Outside ==> !visitor::in_range(s, e.1)) && (visitor::range_relation(
        s,
        cell,
    ) == CellRelation::Inside ==> visitor::in_range(s, e.1)) by {
        let i = choose|i: int| 0 <= i < es.len() && es[i] == e;
        assert(visitor::in_cell(es[i].1, cell));
        visitor::lemma_range_relation_sound(s, cell, e.1);
    }
    match visitor::range_relation(s, cell) {
        CellRelation::Outside => {
            assert forall|id: u64| !has_point(es, s, id) by {}
        },
        CellRelation::Inside => {
            lemma_collect_finds(subtract, es, num_dims, block_size, plan, s);
        },
        CellRelation::Crosses => {
            lemma_walk_finds(subtract, es, num_dims, block_size, plan, s);
        },
    }
}

/// A walk over points that were divided up finds exactly the documents with a
/// point in the range.
pub proof fn lemma_walk_finds<F: Fn(u64, u64) -> u64>(
    subtract: F,
    es: Seq<Entry>,
    num_dims: nat,
    block_size: nat,
    plan: Plan,
    s: RangeState,
)
    requires
        divides(subtract, es, num_dims, block_size, plan),
        points_have(es, num_dims),
        points_are_numbers(es),
        es.len() <= u32::MAX,
    ensures
        walk::<RangeQueryVisitor>(plan.tree(), s).1 is Ok,
        found(s, walk::<RangeQueryVisitor>(plan.tree(), s).0, es),
    decreases plan, 0nat,
{
    lemma_divides_points(subtract, es, num_dims, block_size, plan);
    match plan {
        Plan::Leaf { cell, entries } => {
            lemma_cell_numbers(es, num_dims);
            assert forall|e: Entry| #[trigger] es.contains(e) implies (visitor::range_relation(
                s,
                cell,
            ) == CellRelation::Outside ==> !visitor::in_range(s, e.1)) && (visitor::range_relation(
                s,
                cell,
            ) == CellRelation::Inside ==> visitor::in_range(s, e.1)) by {
                let i = choose|i: int| 0 <= i < es.len() && es[i] == e;
                assert(visitor::in_cell(es[i].1, cell));
                visitor::lemma_range_relation_sound(s, cell, e.1);
            }
            match visitor::range_relation(s, cell) {
                CellRelation::Outside => {
                    assert forall|id: u64| !has_point(es, s, id) by {}
                },
                CellRelation::Inside => {
                    lemma_collect_finds(subtract, es, num_dims, block_size, plan, s);
                },
                CellRelation::Crosses => {
                    lemma_visit_finds(entries, s);
                    lemma_found_same(s, walk::<RangeQueryVisitor>(plan.tree(), s).0, entries, es);
                },
            }
        },
        Plan::Node { cell, split_dim, split_value, left, right } => {
            let sorted = by_coordinate(es, split_dim as int);
            let mid = es.len() as int / 2;
            lemma_parts_numbers(es, sorted, mid);
            lemma_child_finds(subtract, sorted.take(mid), num_dims, block_size, *left, s);
            let m = walk_child::<RangeQueryVisitor>(left.cell(), left.tree(), s).0;
            lemma_child_finds(subtract, sorted.skip(mid), num_dims, block_size, *right, m);
            let t = walk_child::<RangeQueryVisitor>(right.cell(), right.tree(), m).0;
            lemma_found_both(s, m, t, sorted, mid);
            lemma_found_same(s, t, sorted, es);
        },
    }
}

// ---------------------------------------------------------------------------
// Writing
// ---------------------------------------------------------------------------

/// The entry at place `i` of flat buffers.
pub open spec fn entry_of(points: Seq<u64>, doc_ids: Seq<u64>, num_dims: int, i: int) -> Entry {
    (doc_ids[i], points.subrange(i * num_dims, i * num_dims + num_dims))
}

/// The entries of flat buffers: point `i` takes `num_dims` coordinates behind
/// those of the points before it.
pub open spec fn entries_of(points: Seq<u64>, doc_ids: Seq<u64>, num_dims: int) -> Seq<Entry> {
    Seq::new(doc_ids.len(), |i: int| entry_of(points, doc_ids, num_dims, i))
}

/// The flat buffers that a tree is built from.
struct BuildContext<'a> {
    points: &'a [u64],
    doc_ids: &'a [u64],
    num_dims: usize,
}

impl<'a> BuildContext<'a> {
    spec fn wf(&self) -> bool {
        &&& self.points@.len() == self.doc_ids@.len() * self.num_dims
        &&& self.doc_ids@.len() <= u32::MAX
        &&& self.num_dims <= u32::MAX
    }

    spec fn dims(&self) -> nat {
        self.num_dims as nat
    }

    /// The entries at the places `idx`.
    spec fn pick(&self, idx: Seq<usize>) -> Seq<Entry> {
        Seq::new(
            idx.len(),
            |i: int| entry_of(self.points@, self.doc_ids@, self.num_dims as int, idx[i] as int),
        )
    }

    /// Whether the places `idx` are places of the buffers.
    spec fn holds(&self, idx: Seq<usize>) -> bool {
        &&& idx.len() <= u32::MAX
        &&& forall|i: int| 0 <= i < idx.len() ==> (#[trigger] idx[i]) < self.doc_ids@.len()
    }

    proof fn lemma_place(&self, i: int, d: int)
        requires
            self.wf(),
            0 <= i < self.doc_ids@.len(),
            0 <= d < self.num_dims,
        ensures
            0 <= i * self.num_dims + d < self.points@.len(),
            i * self.num_dims <= usize::MAX,
            self.points@.len() <= usize::MAX,
            i * self.num_dims + self.num_dims <= self.points@.len(),
            entry_of(self.points@, self.doc_ids@, self.num_dims as int, i).1[d]
                == self.points@[i * self.num_dims + d],
    {
        assert(i * self.num_dims + self.num_dims <= self.doc_ids@.len() * self.num_dims)
            by (nonlinear_arith)
            requires
                i + 1 <= self.doc_ids@.len(),
        ;
        assert(0 <= i * self.num_dims) by (nonlinear_arith)
            requires
                i >= 0,
        ;
        assert(self.points.len() <= usize::MAX);
    }

    proof fn lemma_points_have(&self, idx: Seq<usize>)
        requires
            self.wf(),
            self.holds(idx),
        ensures
            points_have(self.pick(idx), self.dims()),
    {
        let es = self.pick(idx);
        assert forall|i: int| 0 <= i < es.len() implies (#[trigger] es[i]).1.len() == self.dims() by {
            let k = idx[i] as int;
            assert(k < self.doc_ids@.len());
            assert(0 <= k * self.num_dims && k * self.num_dims + self.num_dims
                <= self.doc_ids@.len() * self.num_dims) by (nonlinear_arith)
                requires
                    k + 1 <= self.doc_ids@.len(),
                    k >= 0,
            ;
        }
    }

    /// Coordinate `d` of the point at place `i`.
    fn value(&self, i: usize, d: usize) -> (r: u64)
        requires
            self.wf(),
            i < self.doc_ids@.len(),
            d < self.num_dims,
        ensures
            r == entry_of(self.points@, self.doc_ids@, self.num_dims as int, i as int).1[d as int],
    {
        let n: usize = self.points.len();
        proof {
            self.lemma_place(i as int, d as int);
        }
        self.points[i * self.num_dims + d]
    }
}

/// The bounds of the points at the places `idx`, widened by a point between
/// `low` and `high`.
fn compute_bounds(ctx: &BuildContext, idx: &Vec<usize>, low: u64, high: u64) -> (r: AABB)
    requires
        ctx.wf(),
        ctx.holds(idx@),
    ensures
        r@ == bounds(ctx.pick(idx@), ctx.dims(), low, high),
{
    let mut min: Vec<u64> = Vec::new();
    let mut max: Vec<u64> = Vec::new();
    let n: usize = idx.len();
    let mut d: usize = 0;
    while d < ctx.num_dims
        invariant
            ctx.wf(),
            ctx.holds(idx@),
            n == idx@.len(),
            d <= ctx.num_dims,
            min@.len() == d,
            max@.len() == d,
            forall|k: int| 0 <= k < d ==> (#[trigger] min@[k]) == least(ctx.pick(idx@), k, low),
            forall|k: int| 0 <= k < d ==> (#[trigger] max@[k]) == greatest(ctx.pick(idx@), k, high),
        decreases ctx.num_dims - d,
    {
        let mut lo: u64 = low;
        let mut hi: u64 = high;
        let mut i: usize = 0;
        assert(ctx.pick(idx@).take(0) =~= Seq::empty());
        while i < n
            invariant
                ctx.wf(),
                ctx.holds(idx@),
                n == idx@.len(),
                i <= n,
                d < ctx.num_dims,
                lo == least(ctx.pick(idx@).take(i as int), d as int, low),
                hi == greatest(ctx.pick(idx@).take(i as int), d as int, high),
            decreases n - i,
        {
            let v: u64 = ctx.value(idx[i], d);
            lo = floats::total_min(lo, v);
            hi = floats::total_max(hi, v);
            proof {
                let es = ctx.pick(idx@);
                assert(es.take(i + 1).drop_last() =~= es.take(i as int));
                assert(es.take(i + 1).last() == es[i as int]);
            }
            i = i + 1;
        }
        assert(ctx.pick(idx@).take(n as int) =~= ctx.pick(idx@));
        min.push(lo);
        max.push(hi);
        d = d + 1;
    }
    let r = AABB { min, max };
    assert(r@ =~= bounds(ctx.pick(idx@), ctx.dims(), low, high));
    r
}

/// The bounds of the points at the places `idx`.
fn compute_aabb(ctx: &BuildContext, idx: &Vec<usize>) -> (r: AABB)
    requires
        ctx.wf(),
        ctx.holds(idx@),
    ensures
        r@ == cell_of(ctx.pick(idx@), ctx.dims()),
{
    compute_bounds(ctx, idx, floats::INFINITY, floats::NEG_INFINITY)
}

/// The widest dimension of a box, the first one where several are as wide.
pub fn widest_axis<F: Fn(u64, u64) -> u64>(aabb: &AABB, subtract: &F) -> (r: u32)
    requires
        0 < aabb.min@.len() <= u32::MAX,
        aabb.max@.len() == aabb.min@.len(),
        forall|a: u64, b: u64| call_requires(*subtract, (a, b)),
    ensures
        r < aabb.min@.len(),
        widest(*subtract, aabb@, r as int),
{
    let n: usize = aabb.min.len();
    let mut best: usize = 0;
    let mut best_range: u64 = (*subtract)(aabb.max[0], aabb.min[0]);
    let ghost mut spans: Seq<u64> = seq![best_range];
    let mut d: usize = 1;
    while d < n
        invariant
            n == aabb.min@.len(),
            n == aabb.max@.len(),
            n <= u32::MAX,
            1 <= d <= n,
            forall|a: u64, b: u64| call_requires(*subtract, (a, b)),
            best < d,
            spans.len() == d,
            best == widest_of(spans, d as int),
            best_range == spans[best as int],
            forall|k: int|
                0 <= k < d ==> call_ensures(
                    *subtract,
                    (aabb.max@[k], aabb.min@[k]),
                    #[trigger] spans[k],
                ),
        decreases n - d,
    {
        let r: u64 = (*subtract)(aabb.max[d], aabb.min[d]);
        let ghost before = spans;
        proof {
            spans = spans.push(r);
            lemma_widest_prefix(before, r, d as int);
        }
        if floats::is_less(best_range, r) {
            best = d;
            best_range = r;
        }
        d = d + 1;
    }
    proof {
        assert(spans_of(*subtract, aabb@, spans));
    }
    best as u32
}

/// The widest of the first spans does not depend on later ones.
proof fn lemma_widest_prefix(spans: Seq<u64>, r: u64, n: int)
    requires
        1 <= n <= spans.len(),
    ensures
        widest_of(spans.push(r), n) == widest_of(spans, n),
        0 <= widest_of(spans, n) < n,
    decreases n,
{
    if n > 1 {
        lemma_widest_prefix(spans, r, n - 1);
    }
}

/// The places `idx` in the order `order`.
fn reorder(idx: &Vec<usize>, order: &Vec<usize>) -> (r: Vec<usize>)
    requires
        forall|i: int| 0 <= i < order@.len() ==> (#[trigger] order@[i]) < idx@.len(),
    ensures
        r@ == Seq::new(order@.len(), |i: int| idx@[order@[i] as int]),
{
    let mut r: Vec<usize> = Vec::new();
    let mut i: usize = 0;
    while i < order.len()
        invariant
            i <= order@.len(),
            forall|k: int| 0 <= k < order@.len() ==> (#[trigger] order@[k]) < idx@.len(),
            r@.len() == i,
            forall|k: int| 0 <= k < i ==> (#[trigger] r@[k]) == idx@[order@[k] as int],
        decreases order@.len() - i,
    {
        r.push(idx[order[i]]);
        i = i + 1;
    }
    assert(r@ =~= Seq::new(order@.len(), |i: int| idx@[order@[i] as int]));
    r
}

/// The places `idx` in ascending order of their documents.
fn order_by_doc(ctx: &BuildContext, idx: &Vec<usize>) -> (r: Vec<usize>)
    requires
        ctx.wf(),
        ctx.holds(idx@),
    ensures
        ctx.holds(r@),
        ctx.pick(r@) == by_doc(ctx.pick(idx@)),
{
    let n: usize = idx.len();
    let mut keys: Vec<u64> = Vec::new();
    let mut i: usize = 0;
    while i < n
        invariant
            ctx.wf(),
            ctx.holds(idx@),
            n == idx@.len(),
            i <= n,
            keys@.len() == i,
            forall|k: int| 0 <= k < i ==> (#[trigger] keys@[k]) == doc_keys(ctx.pick(idx@))[k],
        decreases n - i,
    {
        keys.push(ctx.doc_ids[idx[i]]);
        i = i + 1;
    }
    assert(keys@ =~= doc_keys(ctx.pick(idx@)));
    let order: Vec<usize> = sort::stable_order(&keys);
    proof {
        sort::lemma_order_of(keys@);
    }
    let r: Vec<usize> = reorder(idx, &order);
    proof {
        assert(ctx.pick(r@) =~= by_doc(ctx.pick(idx@)));
    }
    r
}

/// The places `idx` in the total order of one coordinate.
fn order_by_coordinate(ctx: &BuildContext, idx: &Vec<usize>, d: usize) -> (r: Vec<usize>)
    requires
        ctx.wf(),
        ctx.holds(idx@),
        d < ctx.num_dims,
    ensures
        ctx.holds(r@),
        ctx.pick(r@) == by_coordinate(ctx.pick(idx@), d as int),
        r@.len() == idx@.len(),
{
    let n: usize = idx.len();
    let mut keys: Vec<u64> = Vec::new();
    let mut i: usize = 0;
    while i < n
        invariant
            ctx.wf(),
            ctx.holds(idx@),
            n == idx@.len(),
            i <= n,
            d < ctx.num_dims,
            keys@.len() == i,
            forall|k: int|
                0 <= k < i ==> (#[trigger] keys@[k]) == coordinate_keys(
                    ctx.pick(idx@),
                    d as int,
                )[k],
        decreases n - i,
    {
        keys.push(floats::f64_to_sortable_u64(ctx.value(idx[i], d)));
        i = i + 1;
    }
    assert(keys@ =~= coordinate_keys(ctx.pick(idx@), d as int));
    let order: Vec<usize> = sort::stable_order(&keys);
    proof {
        sort::lemma_order_of(keys@);
    }
    let r: Vec<usize> = reorder(idx, &order);
    proof {
        assert(ctx.pick(r@) =~= by_coordinate(ctx.pick(idx@), d as int));
    }
    r
}

/// The distances of the coordinates of dimension `d` from the least one.
fn deltas_of(ctx: &BuildContext, idx: &Vec<usize>, aabb: &AABB, d: usize, base: u64) -> (r: Vec<u64>)
    requires
        ctx.wf(),
        ctx.holds(idx@),
        d < ctx.num_dims,
        d < aabb.min@.len(),
        base == floats::sortable(aabb.min@[d as int]),
        points_in(ctx.pick(idx@), aabb@),
    ensures
        r@ == column_deltas(aabb@, ctx.pick(idx@), d as int),
{
    let n: usize = idx.len();
    let mut r: Vec<u64> = Vec::new();
    let mut i: usize = 0;
    while i < n
        invariant
            ctx.wf(),
            ctx.holds(idx@),
            n == idx@.len(),
            i <= n,
            d < ctx.num_dims,
            d < aabb.min@.len(),
            base == floats::sortable(aabb.min@[d as int]),
            points_in(ctx.pick(idx@), aabb@),
            r@.len() == i,
            forall|k: int|
                0 <= k < i ==> (#[trigger] r@[k]) == column_deltas(
                    aabb@,
                    ctx.pick(idx@),
                    d as int,
                )[k],
        decreases n - i,
    {
        let v: u64 = floats::f64_to_sortable_u64(ctx.value(idx[i], d));
        proof {
            let es = ctx.pick(idx@);
            assert(visitor::in_cell(es[i as int].1, aabb@));
            assert(floats::sortable(aabb@.min[d as int]) <= floats::sortable(
                es[i as int].1[d as int],
            ));
        }
        r.push(v - base);
        i = i + 1;
    }
    assert(r@ =~= column_deltas(aabb@, ctx.pick(idx@), d as int));
    r
}

/// The distance of each document from the one before it.
fn gaps_of(ctx: &BuildContext, idx: &Vec<usize>) -> (r: Vec<u64>)
    requires
        ctx.wf(),
        ctx.holds(idx@),
        docs_ascend(ctx.pick(idx@)),
    ensures
        r@ == doc_gaps(ctx.pick(idx@)),
{
    let n: usize = idx.len();
    let mut r: Vec<u64> = Vec::new();
    let mut i: usize = 0;
    while i < n
        invariant
            ctx.wf(),
            ctx.holds(idx@),
            docs_ascend(ctx.pick(idx@)),
            n == idx@.len(),
            i <= n,
            r@.len() == i,
            forall|k: int| 0 <= k < i ==> (#[trigger] r@[k]) == doc_gaps(ctx.pick(idx@))[k],
        decreases n - i,
    {
        let gap: u64 = if i == 0 {
            0
        } else {
            proof {
                let es = ctx.pick(idx@);
                assert(es[i - 1].0 <= es[i as int].0);
            }
            ctx.doc_ids[idx[i]] - ctx.doc_ids[idx[i - 1]]
        };
        r.push(gap);
        i = i + 1;
    }
    assert(r@ =~= doc_gaps(ctx.pick(idx@)));
    r
}

/// The greatest of the values.
fn greatest_of(v: &Vec<u64>) -> (r: u64)
    ensures
        r == max_of(v@),
{
    let mut r: u64 = 0;
    let mut i: usize = 0;
    assert(v@.take(0) =~= Seq::empty());
    while i < v.len()
        invariant
            i <= v@.len(),
            r == max_of(v@.take(i as int)),
        decreases v@.len() - i,
    {
        assert(v@.take(i + 1).drop_last() =~= v@.take(i as int));
        if v[i] > r {
            r = v[i];
        }
        i = i + 1;
    }
    assert(v@.take(v@.len() as int) =~= v@);
    r
}

/// Appends a leaf.
fn write_leaf_block(ctx: &BuildContext, idx: &Vec<usize>, aabb: &AABB, out: &mut Vec<u8>)
    requires
        ctx.wf(),
        ctx.holds(idx@),
        idx@.len() > 0,
        aabb@ == cell_of(ctx.pick(idx@), ctx.dims()),
    ensures
        final(out)@ == old(out)@ + put_leaf(aabb@, by_doc(ctx.pick(idx@)), ctx.dims()),
{
    let ghost start = out@;
    let stored: Vec<usize> = order_by_doc(ctx, idx);
    let ghost es = ctx.pick(stored@);
    proof {
        ctx.lemma_points_have(idx@);
        lemma_by_doc(ctx.pick(idx@));
        lemma_points_in_bounds(
            ctx.pick(idx@),
            ctx.dims(),
            floats::INFINITY,
            floats::NEG_INFINITY,
        );
        lemma_same_entries(es, ctx.pick(idx@), ctx.dims(), aabb@);
        assert(es.len() == idx@.len());
        assert(stored@.len() == es.len());
    }
    codec::write_u32_le(out, stored.len() as u32);
    codec::write_u64s(out, &aabb.min);
    codec::write_u64s(out, &aabb.max);
    codec::write_u64_le(out, ctx.doc_ids[stored[0]]);
    let gaps: Vec<u64> = gaps_of(ctx, &stored);
    let doc_id_bits: u8 = bits::bits_needed(greatest_of(&gaps));
    out.push(doc_id_bits);
    let ghost head = spec_u32_to_le_bytes(es.len() as u32) + (put_cell(aabb@) + (
    spec_u64_to_le_bytes(es[0].0) + seq![gap_width(es) as u8]));
    assert(out@ =~= start + head);
    let mut d: usize = 0;
    assert(out@ =~= start + (head + put_sections(aabb@, es, 0)));
    while d < ctx.num_dims
        invariant
            ctx.wf(),
            ctx.holds(stored@),
            es == ctx.pick(stored@),
            points_in(es, aabb@),
            aabb.min@.len() == ctx.num_dims,
            aabb.max@.len() == ctx.num_dims,
            d <= ctx.num_dims,
            out@ == start + (head + put_sections(aabb@, es, d as nat)),
        decreases ctx.num_dims - d,
    {
        let (base, width): (u64, u8) = dim_point_bits(aabb.min[d], aabb.max[d]);
        let deltas: Vec<u64> = deltas_of(ctx, &stored, aabb, d, base);
        proof {
            lemma_deltas_fit(aabb@, es, d as int);
        }
        let packed: Vec<u8> = bits::pack(&deltas, width);
        let ghost before = out@;
        codec::write_raw(out, packed.as_slice());
        assert(out@ =~= start + (head + put_sections(aabb@, es, (d + 1) as nat)));
        d = d + 1;
    }
    proof {
        lemma_gaps_fit(es);
    }
    let packed: Vec<u8> = bits::pack(&gaps, doc_id_bits);
    codec::write_raw(out, packed.as_slice());
    assert(out@ =~= start + put_leaf(aabb@, es, ctx.dims()));
}

/// Where a subtree stands.
enum ChildRef {
    Leaf { offset: u64 },
    Node { slot: usize },
}

impl View for ChildRef {
    type V = Place;

    closed spec fn view(&self) -> Place {
        match self {
            ChildRef::Leaf { offset } => Place::At { position: *offset as int },
            ChildRef::Node { slot } => Place::Slot { slot: *slot as int },
        }
    }
}

/// A division whose subtrees are known by their places.
struct DraftNode {
    split_dim: u32,
    split_value: u64,
    left_aabb: AABB,
    right_aabb: AABB,
    left: ChildRef,
    right: ChildRef,
}

impl View for DraftNode {
    type V = Draft;

    closed spec fn view(&self) -> Draft {
        Draft {
            split_dim: self.split_dim,
            split_value: self.split_value,
            left_cell: self.left_aabb@,
            right_cell: self.right_aabb@,
            left: self.left@,
            right: self.right@,
        }
    }
}

spec fn draft_views(s: Seq<DraftNode>) -> Seq<Draft> {
    s.map_values(|d: DraftNode| d@)
}

/// A subtree that was built.
struct SubtreeInfo {
    place: ChildRef,
    aabb: AABB,
    plan: Ghost<Plan>,
}

/// Divides the points at the places `idx`: appends the leaves to `out` and the
/// divisions to `nodes`.
#[verifier::spinoff_prover]
#[verifier::rlimit(40)]
fn build_subtree<F: Fn(u64, u64) -> u64>(
    ctx: &BuildContext,
    idx: &Vec<usize>,
    block_size: usize,
    subtract: &F,
    out: &mut Vec<u8>,
    nodes: &mut Vec<DraftNode>,
) -> (r: Result<SubtreeInfo, LaurusError>)
    requires
        ctx.wf(),
        ctx.holds(idx@),
        ctx.num_dims > 0 || idx@.len() <= block_size,
        forall|a: u64, b: u64| call_requires(*subtract, (a, b)),
    ensures
        r is Ok <==> block_size > 0 && idx@.len() > 0,
        r is Err ==> r == Err::<SubtreeInfo, LaurusError>(LaurusError::EmptySubtree),
        r matches Ok(info) ==> {
            let plan = info.plan@;
            let position = old(out)@.len() as int;
            let slot = old(nodes)@.len() as int;
            &&& divides(*subtract, ctx.pick(idx@), ctx.dims(), block_size as nat, plan)
            &&& info.aabb@ == plan.cell()
            &&& info.place@ == place_of(plan, position, slot)
            &&& final(out)@ == old(out)@ + put_leaves(plan, ctx.dims())
            &&& draft_views(final(nodes)@) == draft_views(old(nodes)@) + drafts(
                plan,
                ctx.dims(),
                position,
                slot,
            )
        },
    decreases idx@.len(),
{
    if idx.len() == 0 {
        return Err(LaurusError::EmptySubtree);
    }
    let aabb: AABB = compute_aabb(ctx, idx);
    let ghost es = ctx.pick(idx@);
    let ghost position = out@.len() as int;
    let ghost slot = nodes@.len() as int;
    if idx.len() <= block_size {
        let offset: u64 = out.len() as u64;
        write_leaf_block(ctx, idx, &aabb, out);
        let ghost plan = Plan::Leaf { cell: aabb@, entries: by_doc(es) };
        assert(draft_views(nodes@) =~= draft_views(nodes@) + drafts(
            plan,
            ctx.dims(),
            position,
            slot,
        ));
        return Ok(SubtreeInfo { place: ChildRef::Leaf { offset }, aabb, plan: Ghost(plan) });
    }
    let split_dim: u32 = widest_axis(&aabb, subtract);
    let sorted: Vec<usize> = order_by_coordinate(ctx, idx, split_dim as usize);
    let mid: usize = sorted.len() / 2;
    let split_value: u64 = ctx.value(sorted[mid], split_dim as usize);
    let left_idx: Vec<usize> = slice_to_vec(slice_subrange(sorted.as_slice(), 0, mid));
    let right_idx: Vec<usize> = slice_to_vec(
        slice_subrange(sorted.as_slice(), mid, sorted.len()),
    );
    let ghost by_dim = by_coordinate(es, split_dim as int);
    proof {
        assert(ctx.pick(left_idx@) =~= by_dim.take(mid as int));
        assert(ctx.pick(right_idx@) =~= by_dim.skip(mid as int));
        assert(ctx.holds(left_idx@)) by {
            assert forall|i: int| 0 <= i < left_idx@.len() implies (#[trigger] left_idx@[i])
                < ctx.doc_ids@.len() by {
                assert(left_idx@[i] == sorted@[i]);
            }
        }
        assert(ctx.holds(right_idx@)) by {
            assert forall|i: int| 0 <= i < right_idx@.len() implies (#[trigger] right_idx@[i])
                < ctx.doc_ids@.len() by {
                assert(right_idx@[i] == sorted@[mid + i]);
            }
        }
    }
    let node_idx: usize = nodes.len();
    let ghost before = nodes@;
    nodes.push(
        DraftNode {
            split_dim,
            split_value,
            left_aabb: AABB { min: Vec::new(), max: Vec::new() },
            right_aabb: AABB { min: Vec::new(), max: Vec::new() },
            left: ChildRef::Leaf { offset: 0 },
            right: ChildRef::Leaf { offset: 0 },
        },
    );
    let ghost reserved = nodes@;
    let left: SubtreeInfo = match build_subtree(ctx, &left_idx, block_size, subtract, out, nodes) {
        Ok(v) => v,
        Err(e) => return Err(e),
    };
    let ghost with_left = nodes@;
    let ghost middle = out@.len() as int;
    let right: SubtreeInfo = match build_subtree(ctx, &right_idx, block_size, subtract, out, nodes) {
        Ok(v) => v,
        Err(e) => return Err(e),
    };
    let ghost with_both = nodes@;
    let ghost left_plan = left.plan@;
    let ghost right_plan = right.plan@;
    let ghost plan = Plan::Node {
        cell: aabb@,
        split_dim,
        split_value,
        left: Box::new(left_plan),
        right: Box::new(right_plan),
    };
    let ghost a = drafts(left_plan, ctx.dims(), position, slot + 1);
    let ghost c = drafts(right_plan, ctx.dims(), middle, slot + 1 + left_plan.nodes());
    proof {
        ctx.lemma_points_have(left_idx@);
        lemma_drafts(
            *subtract,
            ctx.pick(left_idx@),
            ctx.dims(),
            block_size as nat,
            left_plan,
            position,
            slot + 1,
            0,
        );
        assert(draft_views(reserved).len() == slot + 1);
        assert(draft_views(with_left) == draft_views(reserved) + a);
        assert(draft_views(with_left).len() == with_left.len());
        assert(with_left.len() == slot + 1 + left_plan.nodes());
        assert(draft_views(with_both) == draft_views(reserved) + a + c);
        assert(draft_views(with_both).len() == with_both.len());
    }
    nodes.set(
        node_idx,
        DraftNode {
            split_dim,
            split_value,
            left_aabb: left.aabb,
            right_aabb: right.aabb,
            left: left.place,
            right: right.place,
        },
    );
    proof {
        let views = draft_views(nodes@);
        let expected = draft_views(before) + drafts(plan, ctx.dims(), position, slot);
        assert(views.len() == draft_views(with_both).len());
        assert(draft_views(with_both).len() == slot + 1 + a.len() + c.len());
        assert forall|k: int| 0 <= k < views.len() implies views[k] == expected[k] by {
            if k < slot {
                assert(views[k] == with_both[k]@);
                assert(draft_views(with_both)[k] == with_both[k]@);
                assert(draft_views(reserved)[k] == reserved[k]@);
                assert(draft_views(before)[k] == before[k]@);
            } else if k > slot {
                assert(views[k] == with_both[k]@);
                assert(draft_views(with_both)[k] == with_both[k]@);
            }
        }
        assert(views =~= expected);
        assert(out@ =~= old(out)@ + put_leaves(plan, ctx.dims()));
    }
    Ok(SubtreeInfo { place: ChildRef::Node { slot: node_idx }, aabb, plan: Ghost(plan) })
}

/// The packed bytes of a leaf take at most eight for each value.
proof fn lemma_packed_len_bound(count: nat, width: nat)
    requires
        width <= 64,
    ensures
        bits::packed_len(count, width) <= 8 * count,
{
    assert(count * width <= 64 * count) by (nonlinear_arith)
        requires
            width <= 64,
    ;
}

proof fn lemma_sections_size(cell: Cell, es: Seq<Entry>, n: nat)
    requires
        points_in(es, cell),
        n <= cell.min.len(),
    ensures
        put_sections(cell, es, n).len() <= 8 * (es.len() * n),
    decreases n,
{
    if n > 0 {
        lemma_sections_size(cell, es, (n - 1) as nat);
        lemma_deltas_fit(cell, es, n - 1);
        bits::lemma_packed_fits(column_deltas(cell, es, n - 1), coordinate_width(cell, n - 1));
        lemma_packed_len_bound(es.len(), coordinate_width(cell, n - 1));
        assert(es.len() * n == es.len() * (n - 1) + es.len()) by (nonlinear_arith);
    } else {
        assert(es.len() * n == 0) by (nonlinear_arith)
            requires
                n == 0,
        ;
    }
}

/// The size of the leaves.
proof fn lemma_leaves_size<F: Fn(u64, u64) -> u64>(
    subtract: F,
    es: Seq<Entry>,
    num_dims: nat,
    block_size: nat,
    plan: Plan,
)
    requires
        divides(subtract, es, num_dims, block_size, plan),
        points_have(es, num_dims),
        es.len() <= u32::MAX,
    ensures
        put_leaves(plan, num_dims).len() <= 21 * es.len() + 24 * (es.len() * num_dims),
    decreases plan,
{
    lemma_divides_points(subtract, es, num_dims, block_size, plan);
    match plan {
        Plan::Leaf { cell, entries } => {
            lemma_auto_spec_u32_to_from_le_bytes();
            lemma_auto_spec_u64_to_from_le_bytes();
            lemma_cell_len(cell);
            lemma_sections_size(cell, entries, num_dims);
            lemma_gaps_fit(entries);
            bits::lemma_packed_fits(doc_gaps(entries), gap_width(entries));
            lemma_packed_len_bound(entries.len(), gap_width(entries));
            assert(num_dims <= es.len() * num_dims) by (nonlinear_arith)
                requires
                    es.len() >= 1,
            ;
        },
        Plan::Node { cell, split_dim, split_value, left, right } => {
            let sorted = by_coordinate(es, split_dim as int);
            let mid = es.len() as int / 2;
            lemma_leaves_size(subtract, sorted.take(mid), num_dims, block_size, *left);
            lemma_leaves_size(subtract, sorted.skip(mid), num_dims, block_size, *right);
            assert(es.len() * num_dims == mid * num_dims + (es.len() - mid) * num_dims)
                by (nonlinear_arith);
        },
    }
}

/// The coordinates that a tree can be built from: its file then counts its bytes
/// in 64 bits.
pub const MAX_COORDINATES: u64 = 0x0100_0000_0000_0000;

/// The size of a file.
proof fn lemma_file_size<F: Fn(u64, u64) -> u64>(
    subtract: F,
    es: Seq<Entry>,
    num_dims: nat,
    block_size: nat,
    plan: Plan,
)
    requires
        divides(subtract, es, num_dims, block_size, plan),
        points_have(es, num_dims),
        es.len() <= u32::MAX,
        num_dims <= u32::MAX,
        es.len() * num_dims <= MAX_COORDINATES,
    ensures
        header_size(num_dims as int) + put_leaves(plan, num_dims).len() + plan.nodes() * node_len(
            num_dims as int,
        ) <= 0x7fff_ffff_ffff_ffff,
        plan.nodes() < es.len(),
        plan.leaves() == plan.nodes() + 1,
{
    lemma_leaves_size(subtract, es, num_dims, block_size, plan);
    lemma_drafts(subtract, es, num_dims, block_size, plan, 0, 0, 0);
    assert(plan.nodes() * node_len(num_dims as int) <= 28 * es.len() + 32 * (es.len() * num_dims))
        by (nonlinear_arith)
        requires
            plan.nodes() < es.len(),
            node_len(num_dims as int) == 28 + 32 * num_dims,
    ;
}

/// The first coordinate from place `from` on that is not a number.
pub open spec fn first_nan(points: Seq<u64>, from: int) -> Option<int>
    decreases points.len() - from,
{
    if from >= points.len() {
        None
    } else if floats::is_nan(points[from]) {
        Some(from)
    } else {
        first_nan(points, from + 1)
    }
}

/// Why buffers are refused, if they are.
pub open spec fn refusal(
    points: Seq<u64>,
    doc_ids: Seq<u64>,
    num_dims: u32,
    block_size: usize,
) -> Option<LaurusError> {
    if doc_ids.len() * num_dims > usize::MAX {
        Some(LaurusError::PointBufferOverflow)
    } else if points.len() != doc_ids.len() * num_dims {
        Some(
            LaurusError::PointBufferSize {
                doc_ids: doc_ids.len() as u64,
                dims: num_dims,
                expected: (doc_ids.len() * num_dims) as u64,
                got: points.len() as u64,
            },
        )
    } else if doc_ids.len() > u32::MAX {
        Some(LaurusError::PointCount { count: doc_ids.len() as u64 })
    } else if doc_ids.len() == 0 {
        None
    } else {
        match first_nan(points, 0) {
            Some(i) => Some(
                LaurusError::NotANumber {
                    doc_index: (i / (num_dims as int)) as u64,
                    dim: (i % (num_dims as int)) as u64,
                },
            ),
            None => if block_size == 0 {
                Some(LaurusError::EmptySubtree)
            } else {
                None
            },
        }
    }
}

/// Whether `file` is a file of the points of flat buffers.
pub open spec fn is_file_of<F: Fn(u64, u64) -> u64>(
    subtract: F,
    points: Seq<u64>,
    doc_ids: Seq<u64>,
    num_dims: u32,
    block_size: usize,
    file: Seq<u8>,
) -> bool {
    if doc_ids.len() == 0 {
        file == put_header(empty_header(num_dims, block_size as u32))
    } else {
        let es = entries_of(points, doc_ids, num_dims as int);
        exists|plan: Plan|
            {
                &&& #[trigger] divides(subtract, es, num_dims as nat, block_size as nat, plan)
                &&& file == put_file(es, num_dims, block_size as u32, plan)
                &&& file.len() <= u64::MAX
            }
    }
}

/// Appends a header.
fn write_header(out: &mut Vec<u8>, h: &BKDFileHeader)
    requires
        h.magic == BKD_MAGIC,
        h.version == BKD_VERSION,
        h.bytes_per_dim == BYTES_PER_DIM,
    ensures
        final(out)@ == old(out)@ + put_header(h@),
{
    codec::write_u32_le(out, h.magic);
    codec::write_u32_le(out, h.version);
    codec::write_u32_le(out, h.num_dims);
    codec::write_u32_le(out, h.bytes_per_dim);
    codec::write_u64_le(out, h.total_point_count);
    codec::write_u64_le(out, h.num_blocks);
    codec::write_u32_le(out, h.block_size);
    codec::write_u64s(out, &h.min_values);
    codec::write_u64s(out, &h.max_values);
    codec::write_u64_le(out, h.index_start_offset);
    codec::write_u64_le(out, h.root_node_offset);
    assert(out@ =~= old(out)@ + put_header(h@));
}

/// The offset of a subtree in a file whose index starts at `index_start`.
fn resolve(place: &ChildRef, num_dims: u32, index_start: u64) -> (r: u64)
    requires
        place@ matches Place::Slot { slot } ==> index_start + slot * node_len(num_dims as int)
            <= u64::MAX,
    ensures
        r == offset_of(place@, num_dims as int, index_start as int),
{
    let node_size: u64 = 28 + 32 * num_dims as u64;
    match place {
        ChildRef::Leaf { offset } => *offset,
        ChildRef::Node { slot } => {
            assert(0 <= slot * node_size) by (nonlinear_arith)
                requires
                    *slot >= 0,
                    node_size >= 0,
            ;
            index_start + (*slot as u64) * node_size
        },
    }
}

/// Whether the subtrees of a division have places of an index of `n` nodes.
pub open spec fn refers_below(d: Draft, n: int) -> bool {
    &&& (d.left matches Place::Slot { slot } ==> 0 <= slot < n)
    &&& (d.right matches Place::Slot { slot } ==> 0 <= slot < n)
}

/// Divisions refer to divisions of their own subtree.
proof fn lemma_drafts_refer<F: Fn(u64, u64) -> u64>(
    subtract: F,
    es: Seq<Entry>,
    num_dims: nat,
    block_size: nat,
    plan: Plan,
    position: int,
    slot: int,
)
    requires
        divides(subtract, es, num_dims, block_size, plan),
        points_have(es, num_dims),
        es.len() <= u32::MAX,
        slot >= 0,
    ensures
        forall|i: int|
            0 <= i < drafts(plan, num_dims, position, slot).len() ==> refers_below(
                #[trigger] drafts(plan, num_dims, position, slot)[i],
                slot + plan.nodes(),
            ),
    decreases plan,
{
    lemma_divides_points(subtract, es, num_dims, block_size, plan);
    lemma_drafts(subtract, es, num_dims, block_size, plan, position, slot, 0);
    match plan {
        Plan::Leaf { cell, entries } => {},
        Plan::Node { cell, split_dim, split_value, left, right } => {
            let sorted = by_coordinate(es, split_dim as int);
            let mid = es.len() as int / 2;
            let middle = position + put_leaves(*left, num_dims).len();
            let next = slot + 1 + left.nodes();
            let ds = drafts(plan, num_dims, position, slot);
            let a = drafts(*left, num_dims, position, slot + 1);
            let c = drafts(*right, num_dims, middle, next);
            lemma_drafts(subtract, sorted.take(mid), num_dims, block_size, *left, position, slot + 1, 0);
            lemma_drafts(subtract, sorted.skip(mid), num_dims, block_size, *right, middle, next, 0);
            lemma_drafts_refer(
                subtract,
                sorted.take(mid),
                num_dims,
                block_size,
                *left,
                position,
                slot + 1,
            );
            lemma_drafts_refer(subtract, sorted.skip(mid), num_dims, block_size, *right, middle, next);
            assert forall|i: int| 0 <= i < ds.len() implies refers_below(
                #[trigger] ds[i],
                slot + plan.nodes(),
            ) by {
                if i == 0 {
                } else if i < 1 + a.len() {
                    assert(ds[i] == a[i - 1]);
                    assert(refers_below(a[i - 1], slot + 1 + left.nodes()));
                } else {
                    assert(ds[i] == c[i - 1 - a.len()]);
                    assert(refers_below(c[i - 1 - a.len()], next + right.nodes()));
                }
            }
        },
    }
}

/// Appends the index.
fn write_index(out: &mut Vec<u8>, nodes: &Vec<DraftNode>, num_dims: u32, index_start: u64)
    requires
        index_start + nodes@.len() * node_len(num_dims as int) <= u64::MAX,
        forall|i: int|
            0 <= i < nodes@.len() ==> refers_below((#[trigger] nodes@[i])@, nodes@.len() as int),
    ensures
        final(out)@ == old(out)@ + put_index(
            draft_views(nodes@),
            num_dims as int,
            index_start as int,
        ),
{
    let ghost start = out@;
    let ghost ns = draft_views(nodes@).map_values(resolved(num_dims as int, index_start as int));
    let n: usize = nodes.len();
    let mut i: usize = 0;
    proof {
        assert(ns.take(0) =~= Seq::empty());
        assert(out@ =~= start + codec::put_many(put_node(), ns.take(0)));
    }
    while i < n
        invariant
            n == nodes@.len(),
            i <= n,
            index_start + n * node_len(num_dims as int) <= u64::MAX,
            forall|k: int| 0 <= k < n ==> refers_below((#[trigger] nodes@[k])@, n as int),
            ns == draft_views(nodes@).map_values(resolved(num_dims as int, index_start as int)),
            out@ == start + codec::put_many(put_node(), ns.take(i as int)),
        decreases n - i,
    {
        let node: &DraftNode = &nodes[i];
        proof {
            let size = node_len(num_dims as int);
            assert(refers_below(nodes@[i as int]@, n as int));
            assert forall|slot: int| 0 <= slot < n implies #[trigger] (slot * size) <= n * size by {
                assert(slot * size <= n * size) by (nonlinear_arith)
                    requires
                        slot <= n,
                        size >= 0,
                ;
            }
        }
        let left_offset: u64 = resolve(&node.left, num_dims, index_start);
        let right_offset: u64 = resolve(&node.right, num_dims, index_start);
        let ghost before = out@;
        codec::write_u32_le(out, node.split_dim);
        codec::write_u64_le(out, node.split_value);
        codec::write_u64s(out, &node.left_aabb.min);
        codec::write_u64s(out, &node.left_aabb.max);
        codec::write_u64s(out, &node.right_aabb.min);
        codec::write_u64s(out, &node.right_aabb.max);
        codec::write_u64_le(out, left_offset);
        codec::write_u64_le(out, right_offset);
        proof {
            assert(ns[i as int] == (NodeView {
                split_dim: node.split_dim,
                split_value: node.split_value,
                left_cell: node.left_aabb@,
                right_cell: node.right_aabb@,
                left_offset,
                right_offset,
            }));
            assert(out@ =~= before + put_node()(ns[i as int]));
            assert(ns.take(i + 1) =~= ns.take(i as int).push(ns[i as int]));
            codec::lemma_put_many_push(put_node(), ns.take(i as int), ns[i as int]);
            assert(out@ =~= start + codec::put_many(put_node(), ns.take(i + 1)));
        }
        i = i + 1;
    }
    assert(ns.take(n as int) =~= ns);
}

/// Writer of a tree file.
pub struct BKDWriter {
    out: Vec<u8>,
    block_size: usize,
    num_dims: u32,
}

impl BKDWriter {
    /// The bytes written so far.
    pub closed spec fn written(&self) -> Seq<u8> {
        self.out@
    }

    /// The largest number of points in a leaf.
    pub closed spec fn block(&self) -> usize {
        self.block_size
    }

    /// The dimensions of the points.
    pub closed spec fn dims(&self) -> u32 {
        self.num_dims
    }

    /// A writer of points of `num_dims` dimensions, with leaves of at most 512
    /// points.
    pub fn new(num_dims: u32) -> (r: BKDWriter)
        ensures
            r.written() == Seq::<u8>::empty(),
            r.block() == 512,
            r.dims() == num_dims,
    {
        let out: Vec<u8> = Vec::new();
        assert(out@ =~= Seq::<u8>::empty());
        BKDWriter { out, block_size: 512, num_dims }
    }

    /// This writer with leaves of at most `block_size` points.
    pub fn with_block_size(self, block_size: usize) -> (r: BKDWriter)
        ensures
            r.written() == self.written(),
            r.block() == block_size,
            r.dims() == self.dims(),
    {
        BKDWriter { out: self.out, block_size, num_dims: self.num_dims }
    }

    /// Writes the tree of the points in flat buffers: coordinate `d` of point `i`
    /// is `points[i * num_dims + d]`. `subtract` is the difference of two numbers
    /// by their patterns.
    #[verifier::spinoff_prover]
    #[verifier::rlimit(40)]
    pub fn write<F: Fn(u64, u64) -> u64>(&mut self, points: &[u64], doc_ids: &[u64], subtract: &F)
        -> (r: Result<(), LaurusError>)
        requires
            old(self).written().len() == 0,
            old(self).dims() > 0 || doc_ids@.len() <= old(self).block(),
            points@.len() <= MAX_COORDINATES,
            forall|a: u64, b: u64| call_requires(*subtract, (a, b)),
        ensures
            final(self).dims() == old(self).dims(),
            final(self).block() == old(self).block(),
            match refusal(points@, doc_ids@, old(self).dims(), old(self).block()) {
                Some(e) => r == Err::<(), LaurusError>(e) && final(self).written()
                    == old(self).written(),
                None => r is Ok && is_file_of(
                    *subtract,
                    points@,
                    doc_ids@,
                    old(self).dims(),
                    old(self).block(),
                    final(self).written(),
                ),
            },
    {
        let num_dims: usize = self.num_dims as usize;
        let count: usize = doc_ids.len();
        let expected: usize = match count.checked_mul(num_dims) {
            Some(v) => v,
            None => return Err(LaurusError::PointBufferOverflow),
        };
        if points.len() != expected {
            return Err(
                LaurusError::PointBufferSize {
                    doc_ids: count as u64,
                    dims: self.num_dims,
                    expected: expected as u64,
                    got: points.len() as u64,
                },
            );
        }
        match bits::checked_point_count_u32(count) {
            Ok(_) => {},
            Err(e) => return Err(e),
        }
        let mut out: Vec<u8> = Vec::new();
        if count == 0 {
            let header: BKDFileHeader = BKDFileHeader {
                magic: BKD_MAGIC,
                version: BKD_VERSION,
                num_dims: self.num_dims,
                bytes_per_dim: BYTES_PER_DIM,
                total_point_count: 0,
                num_blocks: 0,
                block_size: self.block_size as u32,
                min_values: repeated(floats::MAX_FINITE, self.num_dims),
                max_values: repeated(floats::MIN_FINITE, self.num_dims),
                index_start_offset: 0,
                root_node_offset: 0,
            };
            assert(header@ =~= empty_header(self.num_dims, self.block_size as u32));
            write_header(&mut out, &header);
            assert(out@ =~= put_header(header@));
            self.out = out;
            return Ok(());
        }
        let mut offset: usize = 0;
        while offset < points.len()
            invariant
                offset <= points@.len(),
                count > 0,
                points@.len() == count * num_dims,
                first_nan(points@, offset as int) == first_nan(points@, 0),
                forall|k: int| 0 <= k < offset ==> !floats::is_nan(#[trigger] points@[k]),
            ensures
                offset == points@.len() || floats::is_nan(points@[offset as int]),
                offset < points@.len() ==> first_nan(points@, 0) == Some(offset as int),
                offset == points@.len() ==> first_nan(points@, 0) is None,
                offset <= points@.len(),
            decreases points@.len() - offset,
        {
            if floats::pattern_is_nan(points[offset]) {
                break;
            }
            offset = offset + 1;
        }
        if offset < points.len() {
            proof {
                assert(num_dims > 0) by {
                    if num_dims == 0 {
                        assert(count * num_dims == 0) by (nonlinear_arith)
                            requires
                                num_dims == 0,
                        ;
                    }
                }
            }
            return Err(
                LaurusError::NotANumber {
                    doc_index: (offset / num_dims) as u64,
                    dim: (offset % num_dims) as u64,
                },
            );
        }
        let ctx: BuildContext = BuildContext { points, doc_ids, num_dims };
        let mut idx: Vec<usize> = Vec::new();
        let mut i: usize = 0;
        while i < count
            invariant
                i <= count,
                idx@.len() == i,
                forall|k: int| 0 <= k < i ==> (#[trigger] idx@[k]) == k,
            decreases count - i,
        {
            idx.push(i);
            i = i + 1;
        }
        let ghost es = entries_of(points@, doc_ids@, num_dims as int);
        assert(ctx.pick(idx@) =~= es);
        let header_len: u64 = 52 + 16 * (self.num_dims as u64);
        let mut body: Vec<u8> = Vec::new();
        let mut filled: u64 = 0;
        while filled < header_len
            invariant
                filled <= header_len,
                body@.len() == filled,
            decreases header_len - filled,
        {
            body.push(0);
            filled = filled + 1;
        }
        let ghost placeholder = body@;
        let global: AABB = compute_bounds(&ctx, &idx, floats::MAX_FINITE, floats::MIN_FINITE);
        let mut nodes: Vec<DraftNode> = Vec::new();
        assert(draft_views(nodes@) =~= Seq::empty());
        let info: SubtreeInfo = match build_subtree(
            &ctx,
            &idx,
            self.block_size,
            subtract,
            &mut body,
            &mut nodes,
        ) {
            Ok(v) => v,
            Err(e) => return Err(e),
        };
        let ghost plan = info.plan@;
        let ghost leaves = put_leaves(plan, num_dims as nat);
        let index_start: u64 = body.len() as u64;
        proof {
            let dims = num_dims as nat;
            ctx.lemma_points_have(idx@);
            lemma_file_size(*subtract, es, dims, self.block_size as nat, plan);
            lemma_drafts(
                *subtract,
                es,
                dims,
                self.block_size as nat,
                plan,
                header_len as int,
                0,
                index_start as int,
            );
            lemma_drafts_refer(
                *subtract,
                es,
                dims,
                self.block_size as nat,
                plan,
                header_len as int,
                0,
            );
            let ds = drafts(plan, dims, header_len as int, 0);
            assert(draft_views(nodes@) =~= ds);
            assert(draft_views(nodes@).len() == nodes@.len());
            assert forall|k: int| 0 <= k < nodes@.len() implies refers_below(
                (#[trigger] nodes@[k])@,
                nodes@.len() as int,
            ) by {
                assert(draft_views(nodes@)[k] == nodes@[k]@);
                assert(refers_below(ds[k], plan.nodes() as int));
            }
            assert(0 * node_len(num_dims as int) == 0) by (nonlinear_arith);
        }
        let root: u64 = resolve(&info.place, self.num_dims, index_start);
        let header: BKDFileHeader = BKDFileHeader {
            magic: BKD_MAGIC,
            version: BKD_VERSION,
            num_dims: self.num_dims,
            bytes_per_dim: BYTES_PER_DIM,
            total_point_count: count as u64,
            num_blocks: nodes.len() as u64 + 1,
            block_size: self.block_size as u32,
            min_values: global.min,
            max_values: global.max,
            index_start_offset: index_start,
            root_node_offset: root,
        };
        assert(header@ =~= plan_header(es, self.num_dims, self.block_size as u32, plan));
        write_header(&mut out, &header);
        let written: &[u8] = slice_subrange(body.as_slice(), header_len as usize, body.len());
        assert(written@ =~= leaves);
        codec::write_raw(&mut out, written);
        write_index(&mut out, &nodes, self.num_dims, index_start);
        proof {
            assert(out@ =~= put_file(es, self.num_dims, self.block_size as u32, plan));
            assert(divides(*subtract, es, self.num_dims as nat, self.block_size as nat, plan));
            assert(out@.len() == out.len());
        }
        self.out = out;
        Ok(())
    }

    /// The bytes of the file.
    pub fn finish(self) -> (r: Vec<u8>)
        ensures
            r@ == self.written(),
    {
        self.out
    }
}

/// `n` times the same pattern.
fn repeated(v: u64, n: u32) -> (r: Vec<u64>)
    ensures
        r@ == Seq::new(n as nat, |i: int| v),
{
    let mut r: Vec<u64> = Vec::new();
    let mut i: u32 = 0;
    while i < n
        invariant
            i <= n,
            r@ == Seq::new(i as nat, |k: int| v),
        decreases n - i,
    {
        r.push(v);
        i = i + 1;
        assert(r@ =~= Seq::new(i as nat, |k: int| v));
    }
    r
}

/// The points of buffers that are not refused.
proof fn lemma_entries_of(points: Seq<u64>, doc_ids: Seq<u64>, num_dims: u32, block_size: usize)
    requires
        refusal(points, doc_ids, num_dims, block_size) is None,
    ensures
        points_have(entries_of(points, doc_ids, num_dims as int), num_dims as nat),
        points_are_numbers(entries_of(points, doc_ids, num_dims as int)),
        doc_ids.len() <= u32::MAX,
{
    let es = entries_of(points, doc_ids, num_dims as int);
    if doc_ids.len() > 0 {
        lemma_first_nan(points, 0);
        assert forall|i: int| 0 <= i < es.len() implies (#[trigger] es[i]).1.len() == num_dims
            && visitor::all_numbers(es[i].1) by {
            assert(0 <= i * num_dims && i * num_dims + num_dims <= doc_ids.len() * num_dims)
                by (nonlinear_arith)
                requires
                    0 <= i < doc_ids.len(),
            ;
            assert forall|d: int| 0 <= d < num_dims implies !floats::is_nan(
                #[trigger] es[i].1[d],
            ) by {
                assert(es[i].1[d] == points[i * num_dims + d]);
            }
        }
    }
}

/// Whether the size of a block is one that a file can state for this many points: it fits
/// in 32 bits, or all points fit in a block of what is left of it in 32 bits. Of any other
/// file every leaf is refused.
pub open spec fn states_block_size(block_size: usize, count: nat) -> bool {
    block_size <= u32::MAX || count <= (block_size as u32) as nat
}

/// A file of points reads back as the tree into which they were divided, with its header.
pub proof fn lemma_written_tree<F: Fn(u64, u64) -> u64>(
    subtract: F,
    points: Seq<u64>,
    doc_ids: Seq<u64>,
    num_dims: u32,
    block_size: usize,
    file: Seq<u8>,
) -> (plan: Plan)
    requires
        refusal(points, doc_ids, num_dims, block_size) is None,
        is_file_of(subtract, points, doc_ids, num_dims, block_size, file),
        states_block_size(block_size, doc_ids.len()),
        doc_ids.len() > 0,
    ensures
        take_header(file) == Ok::<HeaderView, LaurusError>(
            plan_header(
                entries_of(points, doc_ids, num_dims as int),
                num_dims,
                block_size as u32,
                plan,
            ),
        ),
        tree_of_file(file, take_header(file)->Ok_0) == plan.tree(),
        divides(
            subtract,
            entries_of(points, doc_ids, num_dims as int),
            num_dims as nat,
            (block_size as u32) as nat,
            plan,
        ),
{
    let es = entries_of(points, doc_ids, num_dims as int);
    let plan = choose|plan: Plan|
        {
            &&& #[trigger] divides(subtract, es, num_dims as nat, block_size as nat, plan)
            &&& file == put_file(es, num_dims, block_size as u32, plan)
            &&& file.len() <= u64::MAX
        };
    lemma_entries_of(points, doc_ids, num_dims, block_size);
    if block_size > u32::MAX {
        assert(es.len() <= block_size);
        assert(plan is Leaf);
    }
    lemma_file_round_trip(subtract, es, num_dims, block_size as u32, plan);
    plan
}

/// What was written is found again: the file opens, and a range search finds
/// exactly the documents with a point in the range, each once and in ascending
/// order.
pub proof fn lemma_written_is_found<F: Fn(u64, u64) -> u64>(
    subtract: F,
    points: Seq<u64>,
    doc_ids: Seq<u64>,
    num_dims: u32,
    block_size: usize,
    file: Seq<u8>,
    s: RangeState,
)
    requires
        refusal(points, doc_ids, num_dims, block_size) is None,
        is_file_of(subtract, points, doc_ids, num_dims, block_size, file),
        states_block_size(block_size, doc_ids.len()),
    ensures
        take_header(file) is Ok,
        ({
            let end = walk::<RangeQueryVisitor>(
                tree_of_file(file, take_header(file)->Ok_0),
                s,
            );
            &&& end.1 is Ok
            &&& found(s, end.0, entries_of(points, doc_ids, num_dims as int))
        }),
{
    let es = entries_of(points, doc_ids, num_dims as int);
    lemma_entries_of(points, doc_ids, num_dims, block_size);
    if doc_ids.len() == 0 {
        lemma_empty_file_round_trip(num_dims, block_size as u32);
        assert forall|id: u64| !has_point(es, s, id) by {}
    } else {
        let plan = lemma_written_tree(subtract, points, doc_ids, num_dims, block_size, file);
        lemma_walk_finds(
            subtract,
            es,
            num_dims as nat,
            (block_size as u32) as nat,
            plan,
            s,
        );
    }
}

/// Whether a visitor wants every cell to be looked into, whatever it knows.
pub open spec fn crosses_all<V: IntersectVisitor>() -> bool {
    forall|s: V::State, cell: Cell| #[trigger] V::relate(s, cell) == CellRelation::Crosses
}

/// The points of a division, leaf after leaf.
pub open spec fn leaf_entries(plan: Plan) -> Seq<Entry>
    decreases plan,
{
    match plan {
        Plan::Leaf { cell, entries } => entries,
        Plan::Node { cell, split_dim, split_value, left, right } => leaf_entries(*left)
            + leaf_entries(*right),
    }
}

proof fn lemma_visit_both<V: IntersectVisitor>(s: V::State, a: Seq<Entry>, b: Seq<Entry>)
    ensures
        visitor::visit_all::<V>(s, a + b) == visitor::visit_all::<V>(
            visitor::visit_all::<V>(s, a),
            b,
        ),
    decreases b.len(),
{
    if b.len() == 0 {
        assert(a + b =~= a);
    } else {
        assert((a + b).drop_last() =~= a + b.drop_last());
        lemma_visit_both::<V>(s, a, b.drop_last());
    }
}

proof fn lemma_crossing_walk<V: IntersectVisitor>(plan: Plan, s: V::State)
    requires
        crosses_all::<V>(),
    ensures
        walk::<V>(plan.tree(), s).1 is Ok,
        walk::<V>(plan.tree(), s).0 == visitor::visit_all::<V>(s, leaf_entries(plan)),
    decreases plan,
{
    match plan {
        Plan::Leaf { cell, entries } => {
            assert(V::relate(s, cell) == CellRelation::Crosses);
        },
        Plan::Node { cell, split_dim, split_value, left, right } => {
            let m = visitor::visit_all::<V>(s, leaf_entries(*left));
            lemma_crossing_walk::<V>(*left, s);
            lemma_crossing_walk::<V>(*right, m);
            lemma_visit_both::<V>(s, leaf_entries(*left), leaf_entries(*right));
            assert(V::relate(s, left.cell()) == CellRelation::Crosses);
            assert(V::relate(m, right.cell()) == CellRelation::Crosses);
            let t = plan.tree();
            assert(t->left_cell == left.cell() && *t->left == left.tree());
            assert(t->right_cell == right.cell() && *t->right == right.tree());
            assert(walk_child::<V>(left.cell(), left.tree(), s).1 is Ok);
            assert(walk_child::<V>(left.cell(), left.tree(), s).0 == m);
            assert(walk_child::<V>(right.cell(), right.tree(), m).1 is Ok);
            assert(walk::<V>(t, s) == walk_child::<V>(right.cell(), right.tree(), m));
        },
    }
}

proof fn lemma_leaf_entries<F: Fn(u64, u64) -> u64>(
    subtract: F,
    es: Seq<Entry>,
    num_dims: nat,
    block_size: nat,
    plan: Plan,
)
    requires
        divides(subtract, es, num_dims, block_size, plan),
        es.len() <= u32::MAX,
    ensures
        leaf_entries(plan).to_multiset() == es.to_multiset(),
    decreases plan,
{
    match plan {
        Plan::Leaf { cell, entries } => {
            sort::lemma_order_of(doc_keys(es));
            sort::lemma_multiset_permuted(es, sort::order_of(doc_keys(es)));
        },
        Plan::Node { cell, split_dim, split_value, left, right } => {
            let keys = coordinate_keys(es, split_dim as int);
            let sorted = by_coordinate(es, split_dim as int);
            let mid = es.len() as int / 2;
            sort::lemma_order_of(keys);
            sort::lemma_multiset_permuted(es, sort::order_of(keys));
            lemma_leaf_entries(subtract, sorted.take(mid), num_dims, block_size, *left);
            lemma_leaf_entries(subtract, sorted.skip(mid), num_dims, block_size, *right);
            lemma_multiset_commutative(leaf_entries(*left), leaf_entries(*right));
            lemma_multiset_commutative(sorted.take(mid), sorted.skip(mid));
            assert(sorted.take(mid) + sorted.skip(mid) =~= sorted);
        },
    }
}

/// A visitor that wants every cell to be looked into is shown every point that was
/// written, each as often as it was written, with its document and its coordinates bit for
/// bit, and nothing else; no document is handed to it without its point.
pub proof fn lemma_all_points_are_shown<V: IntersectVisitor, F: Fn(u64, u64) -> u64>(
    subtract: F,
    points: Seq<u64>,
    doc_ids: Seq<u64>,
    num_dims: u32,
    block_size: usize,
    file: Seq<u8>,
    s: V::State,
) -> (shown: Seq<Entry>)
    requires
        refusal(points, doc_ids, num_dims, block_size) is None,
        is_file_of(subtract, points, doc_ids, num_dims, block_size, file),
        states_block_size(block_size, doc_ids.len()),
        crosses_all::<V>(),
    ensures
        take_header(file) is Ok,
        walk::<V>(tree_of_file(file, take_header(file)->Ok_0), s).1 is Ok,
        walk::<V>(tree_of_file(file, take_header(file)->Ok_0), s).0 == visitor::visit_all::<V>(
            s,
            shown,
        ),
        shown.len() == doc_ids.len(),
        shown.to_multiset() == entries_of(points, doc_ids, num_dims as int).to_multiset(),
{
    broadcast use group_to_multiset_ensures;

    let es = entries_of(points, doc_ids, num_dims as int);
    lemma_entries_of(points, doc_ids, num_dims, block_size);
    if doc_ids.len() == 0 {
        lemma_empty_file_round_trip(num_dims, block_size as u32);
        assert(es =~= Seq::empty());
        Seq::empty()
    } else {
        let plan = lemma_written_tree(subtract, points, doc_ids, num_dims, block_size, file);
        let shown = leaf_entries(plan);
        lemma_crossing_walk::<V>(plan, s);
        lemma_leaf_entries(subtract, es, num_dims as nat, (block_size as u32) as nat, plan);
        assert(shown.len() == shown.to_multiset().len());
        assert(es.len() == es.to_multiset().len());
        shown
    }
}

/// No pattern behind a place is the first that is not a number exactly where all are
/// numbers.
pub proof fn lemma_no_nan(points: Seq<u64>, from: int)
    requires
        0 <= from,
    ensures
        first_nan(points, from) is None <==> forall|k: int|
            from <= k < points.len() ==> !floats::is_nan(#[trigger] points[k]),
    decreases points.len() - from,
{
    if from < points.len() {
        lemma_no_nan(points, from + 1);
    }
}

proof fn lemma_first_nan(points: Seq<u64>, from: int)
    requires
        first_nan(points, from) is None,
        0 <= from,
    ensures
        forall|k: int| from <= k < points.len() ==> !floats::is_nan(#[trigger] points[k]),
    decreases points.len() - from,
{
    if from < points.len() {
        lemma_first_nan(points, from + 1);
    }
}

} // verus!
