//! Point trees: their files, the walks over them, and the bit packing of leaves.

use std::cell::RefCell;
use std::collections::HashMap;

use laurus::bits::{bits_needed, checked_point_count_u32, pack, unpack, BitReader, BitWriter};
use laurus::bkd_tree::{
    widest_axis, BKDReader, BKDTree, BKDWriter, BKD_MAGIC, BKD_VERSION,
};
use laurus::error::LaurusError;
use laurus::floats::{f64_to_sortable_u64, sortable_u64_to_f64, total_max, total_min};
use laurus::visitor::{
    AABB, Cell, CellRelation, Coordinates, IntersectVisitor, RangeQueryVisitor,
};

/// The size that the file of `bkd_file_size_has_golden_upper_bound` may have.
const GOLDEN: u64 = 37200;

fn patterns(points: &[f64]) -> Vec<u64> {
    points.iter().map(|v| v.to_bits()).collect()
}

fn subtract(a: u64, b: u64) -> u64 {
    (f64::from_bits(a) - f64::from_bits(b)).to_bits()
}

fn aabb(min: &[f64], max: &[f64]) -> AABB {
    AABB {
        min: patterns(min),
        max: patterns(max),
    }
}

/// Files by their names.
#[derive(Default)]
struct Files {
    files: HashMap<String, Vec<u8>>,
}

impl Files {
    fn write(&mut self, name: &str, dims: u32, block_size: usize, points: &[f64], ids: &[u64]) {
        let mut writer = BKDWriter::new(dims).with_block_size(block_size);
        writer.write(&patterns(points), ids, &subtract).unwrap();
        self.files.insert(name.to_string(), writer.finish());
    }

    fn open(&self, name: &str) -> Result<BKDReader, LaurusError> {
        BKDReader::open(self.files[name].clone())
    }

    fn size(&self, name: &str) -> u64 {
        self.files[name].len() as u64
    }
}

fn search(
    reader: &BKDReader,
    mins: &[Option<f64>],
    maxs: &[Option<f64>],
    include_min: bool,
    include_max: bool,
) -> Vec<u64> {
    let bits = |side: &[Option<f64>]| -> Vec<Option<u64>> {
        side.iter().map(|v| v.map(f64::to_bits)).collect()
    };
    reader
        .range_search(&bits(mins), &bits(maxs), include_min, include_max)
        .unwrap()
}

fn relation(query: &AABB, cell: &AABB) -> CellRelation {
    let value = f64::from_bits;
    for d in 0..cell.min.len() {
        if value(cell.max[d]) < value(query.min[d]) || value(cell.min[d]) > value(query.max[d]) {
            return CellRelation::Outside;
        }
    }
    for d in 0..cell.min.len() {
        if value(cell.min[d]) < value(query.min[d]) || value(cell.max[d]) > value(query.max[d]) {
            return CellRelation::Crosses;
        }
    }
    CellRelation::Inside
}

fn contains_point(query: &AABB, point: &[u64]) -> bool {
    (0..point.len()).all(|d| {
        let v = f64::from_bits(point[d]);
        f64::from_bits(query.min[d]) <= v && v <= f64::from_bits(query.max[d])
    })
}

/// Keeps the hits of cells inside apart from those of single points.
struct TracingVisitor {
    query: AABB,
    inside_hits: Vec<u64>,
    crosses_hits: Vec<u64>,
}

impl TracingVisitor {
    fn new(query: AABB) -> Self {
        Self {
            query,
            inside_hits: Vec::new(),
            crosses_hits: Vec::new(),
        }
    }
}

impl IntersectVisitor for TracingVisitor {
    type State = ();

    fn state(&self) {}

    fn relate(_: (), _: Cell) -> CellRelation {
        unreachable!("ghost")
    }

    fn entered(_: (), _: u64) {}

    fn visited(_: (), _: u64, _: Coordinates) {}

    fn compare(&self, cell: &AABB) -> CellRelation {
        relation(&self.query, cell)
    }

    fn visit_inside(&mut self, doc_id: u64) {
        self.inside_hits.push(doc_id);
    }

    fn visit(&mut self, doc_id: u64, point: &[u64]) {
        if contains_point(&self.query, point) {
            self.crosses_hits.push(doc_id);
        }
    }

    fn hand_over(&mut self) -> Self {
        let query = AABB {
            min: self.query.min.clone(),
            max: self.query.max.clone(),
        };
        std::mem::replace(self, TracingVisitor::new(query))
    }
}

/// Records every relation.
struct RecordingVisitor {
    query: AABB,
    relations: RefCell<Vec<CellRelation>>,
    hits: Vec<u64>,
}

impl RecordingVisitor {
    fn new(query: AABB) -> Self {
        Self {
            query,
            relations: RefCell::new(Vec::new()),
            hits: Vec::new(),
        }
    }
}

impl IntersectVisitor for RecordingVisitor {
    type State = ();

    fn state(&self) {}

    fn relate(_: (), _: Cell) -> CellRelation {
        unreachable!("ghost")
    }

    fn entered(_: (), _: u64) {}

    fn visited(_: (), _: u64, _: Coordinates) {}

    fn compare(&self, cell: &AABB) -> CellRelation {
        let relation = relation(&self.query, cell);
        self.relations.borrow_mut().push(relation);
        relation
    }

    fn visit_inside(&mut self, doc_id: u64) {
        self.hits.push(doc_id);
    }

    fn visit(&mut self, doc_id: u64, point: &[u64]) {
        // For Crosses cells, accept the point only if it actually lies
        // inside the query.
        if contains_point(&self.query, point) {
            self.hits.push(doc_id);
        }
    }

    fn hand_over(&mut self) -> Self {
        let query = AABB {
            min: self.query.min.clone(),
            max: self.query.max.clone(),
        };
        std::mem::replace(self, RecordingVisitor::new(query))
    }
}

/// Forces every leaf through the `Crosses` path and records exact bit patterns.
#[derive(Default)]
struct CollectAllVisitor {
    entries: Vec<(u64, Vec<f64>)>,
}

impl IntersectVisitor for CollectAllVisitor {
    type State = ();

    fn state(&self) {}

    fn relate(_: (), _: Cell) -> CellRelation {
        unreachable!("ghost")
    }

    fn entered(_: (), _: u64) {}

    fn visited(_: (), _: u64, _: Coordinates) {}

    fn compare(&self, _cell: &AABB) -> CellRelation {
        CellRelation::Crosses
    }

    fn visit_inside(&mut self, _doc_id: u64) {
        unreachable!("compare always returns Crosses");
    }

    fn visit(&mut self, doc_id: u64, point: &[u64]) {
        self.entries
            .push((doc_id, point.iter().map(|&b| f64::from_bits(b)).collect()));
    }

    fn hand_over(&mut self) -> Self {
        std::mem::take(self)
    }
}

/// The dimension by which the root node of a file splits: the root is the first node of
/// the index.
fn root_split_dim(storage: &Files, path: &str) -> u32 {
    let reader = storage.open(path).unwrap();
    let at = reader.header().index_start_offset as usize;
    let bytes = &storage.files[path];
    u32::from_le_bytes([bytes[at], bytes[at + 1], bytes[at + 2], bytes[at + 3]])
}

/// A file of a single leaf with an explicit, possibly invalid, leaf header.
#[allow(clippy::too_many_arguments)]
fn write_hand_crafted_single_leaf_file(
    storage: &mut Files,
    path: &str,
    num_dims: u32,
    total_point_count: u64,
    block_size: u32,
    leaf_min: &[f64],
    leaf_max: &[f64],
    leaf_count: u32,
    doc_id_base: u64,
    doc_id_bits: u8,
    packed_point_bytes: &[u8],
    packed_doc_id_bytes: &[u8],
) {
    let header_size = 4 + 4 + 4 + 4 + 8 + 8 + 4 + (num_dims as u64 * 8 * 2) + 8 + 8;
    let mut out: Vec<u8> = Vec::new();
    out.extend_from_slice(&BKD_MAGIC.to_le_bytes());
    out.extend_from_slice(&BKD_VERSION.to_le_bytes());
    out.extend_from_slice(&num_dims.to_le_bytes());
    out.extend_from_slice(&8u32.to_le_bytes());
    out.extend_from_slice(&total_point_count.to_le_bytes());
    out.extend_from_slice(&1u64.to_le_bytes()); // num_blocks
    out.extend_from_slice(&block_size.to_le_bytes());
    for &v in leaf_min {
        out.extend_from_slice(&v.to_le_bytes());
    }
    for &v in leaf_max {
        out.extend_from_slice(&v.to_le_bytes());
    }
    out.extend_from_slice(&u64::MAX.to_le_bytes()); // index_start_offset
    out.extend_from_slice(&header_size.to_le_bytes()); // root_node_offset

    out.extend_from_slice(&leaf_count.to_le_bytes());
    for &v in leaf_min {
        out.extend_from_slice(&v.to_le_bytes());
    }
    for &v in leaf_max {
        out.extend_from_slice(&v.to_le_bytes());
    }
    out.extend_from_slice(&doc_id_base.to_le_bytes());
    out.push(doc_id_bits);
    out.extend_from_slice(packed_point_bytes);
    out.extend_from_slice(packed_doc_id_bytes);
    storage.files.insert(path.to_string(), out);
}

#[test]
fn test_bkd_writer_reader_2d() {
    let mut storage = Files::default();
    // Flat row-major buffer: [pt0_x, pt0_y, pt1_x, pt1_y, pt2_x, pt2_y]
    let points: Vec<f64> = vec![10.0, 20.0, 15.0, 25.0, 20.0, 30.0];
    let doc_ids: Vec<u64> = vec![1, 2, 3];

    // Write
    storage.write("test_2d.bkd", 2, 512, &points, &doc_ids);

    // Read
    {
        let reader = storage.open("test_2d.bkd").unwrap();
        assert_eq!(reader.header().num_dims, 2);

        // Search [10, 10] to [15, 25]
        let results = search(&reader, 
                &[Some(10.0), Some(10.0)],
                &[Some(15.0), Some(25.0)],
                true,
                true,
            );
        assert_eq!(results, vec![1, 2]);
    }
}

#[test]
fn test_bkd_writer_empty() {
    let mut storage = Files::default();
    let points: Vec<f64> = vec![];
    let doc_ids: Vec<u64> = vec![];

    storage.write("empty.bkd", 2, 512, &points, &doc_ids);

    let reader = storage.open("empty.bkd").unwrap();
    assert_eq!(reader.header().total_point_count, 0);
    let results = search(&reader, &[None, None], &[None, None], true, true);
    assert!(results.is_empty());
}

#[test]
fn test_bkd_writer_size_mismatch_rejected() {
    // 2 doc_ids in 2D would require 4 f64s, but we pass 3.
    let points: Vec<f64> = vec![1.0, 2.0, 3.0];
    let doc_ids: Vec<u64> = vec![10, 20];

    let mut writer = BKDWriter::new(2);
    let err = writer
        .write(&patterns(&points), &doc_ids, &subtract)
        .unwrap_err();
    assert!(
        err.message().contains("Point buffer size mismatch"),
        "unexpected error: {err:?}"
    );
}

#[test]
fn test_bkd_writer_reader_1d_multi_block() {
    // Exercise the recursive build path with more points than the leaf
    // block size so the index/leaf split is actually visited.
    let mut storage = Files::default();
    let n: usize = 2_000;
    let points: Vec<f64> = (0..n).map(|i| i as f64).collect();
    let doc_ids: Vec<u64> = (0..n as u64).collect();

    storage.write("range1d.bkd", 1, 128, &points, &doc_ids);

    let reader = storage.open("range1d.bkd").unwrap();
    let results = search(&reader, &[Some(100.0)], &[Some(200.0)], true, true);
    let expected: Vec<u64> = (100u64..=200u64).collect();
    assert_eq!(results, expected);
}

#[test]
fn test_bkd_writer_reader_3d_multi_block() {
    // 3D round-trip with multiple leaf blocks: the new per-node /
    // per-leaf AABB layout must round-trip without misaligning offsets.
    let mut storage = Files::default();
    let n: usize = 1_000;
    let mut points: Vec<f64> = Vec::with_capacity(n * 3);
    let mut doc_ids: Vec<u64> = Vec::with_capacity(n);
    for i in 0..n {
        let v = i as f64;
        points.push(v);
        points.push(v + 1000.0);
        points.push(v + 2000.0);
        doc_ids.push(i as u64);
    }

    storage.write("range3d.bkd", 3, 64, &points, &doc_ids);

    let reader = storage.open("range3d.bkd").unwrap();
    assert_eq!(reader.header().num_dims, 3);
    assert_eq!(reader.header().version, BKD_VERSION);

    // Half-open bound on the first axis with an upper-only bound on the
    // second axis to make sure visit_node consumes the AABB bytes
    // correctly even with mixed bounded/unbounded dimensions.
    let results = search(&reader, 
            &[Some(100.0), None, None],
            &[Some(150.0), Some(1200.0), None],
            true,
            true,
        );
    let expected: Vec<u64> = (100u64..=150u64)
        .filter(|&i| (i as f64) + 1000.0 <= 1200.0)
        .collect();
    assert_eq!(results, expected);
}

#[test]
fn test_bkd_reader_rejects_version_mismatch() {
    // Hand-craft a header that claims version 3 (the independent-delta
    // doc_id layout this revision, earlier, retires in favor of
    // consecutive deltas) and confirm the reader refuses to open it.
    // The version check runs immediately after reading `version` --
    // before `block_size` or anything else -- so this file need not
    // carry a `block_size` field to exercise it.
    let mut storage = Files::default();
    let mut bytes = Vec::new();
    bytes.extend_from_slice(&BKD_MAGIC.to_le_bytes());
    bytes.extend_from_slice(&3u32.to_le_bytes()); // retired version
    bytes.extend_from_slice(&2u32.to_le_bytes()); // num_dims
    bytes.extend_from_slice(&8u32.to_le_bytes()); // bytes_per_dim
    bytes.extend_from_slice(&0u64.to_le_bytes()); // total_count
    bytes.extend_from_slice(&0u64.to_le_bytes()); // num_blocks
    bytes.extend_from_slice(&0f64.to_le_bytes()); // global_min[0]
    bytes.extend_from_slice(&0f64.to_le_bytes()); // global_min[1]
    bytes.extend_from_slice(&0f64.to_le_bytes()); // global_max[0]
    bytes.extend_from_slice(&0f64.to_le_bytes()); // global_max[1]
    bytes.extend_from_slice(&0u64.to_le_bytes()); // index_start
    bytes.extend_from_slice(&0u64.to_le_bytes()); // root_offset
    storage.files.insert("v3.bkd".to_string(), bytes);

    let err = storage.open("v3.bkd").unwrap_err();
    let msg = err.message();
    assert!(
        msg.contains("Unsupported BKD version"),
        "unexpected error: {msg}"
    );
}

#[test]
fn widest_axis_picks_largest_range() {
    // Free-function smoke test (doesn't go through the writer).
    assert_eq!(widest_axis(&aabb(&[0.0, 0.0], &[10.0, 100.0]), &subtract), 1);
    assert_eq!(widest_axis(&aabb(&[0.0, 0.0], &[100.0, 10.0]), &subtract), 0);
    // Tie: lower-index dimension wins (deterministic).
    assert_eq!(widest_axis(&aabb(&[0.0, 0.0], &[5.0, 5.0]), &subtract), 0);
    // 3D, middle axis widest.
    assert_eq!(widest_axis(&aabb(&[0.0, 0.0, 0.0], &[1.0, 50.0, 10.0]), &subtract), 1);
}

#[test]
fn build_subtree_root_split_is_widest_axis() {
    // 2D dataset where dim 0 spans 0..n and dim 1 stays in [0, 1).
    // The widest-axis policy must pick dim 0 for the root split,
    // unlike the previous round-robin which would also pick dim 0
    // at depth 0 by accident — so we confirm by also testing the
    // mirrored dataset where dim 1 is widest.
    let mut storage = Files::default();
    let n: usize = 256;

    // Wider on dim 0.
    let mut points: Vec<f64> = Vec::with_capacity(n * 2);
    let mut doc_ids: Vec<u64> = Vec::with_capacity(n);
    for i in 0..n {
        points.push(i as f64);
        points.push(0.0); // narrow: every point shares the same dim 1
        doc_ids.push(i as u64);
    }
    storage.write("wide_dim0.bkd", 2, 32, &points, &doc_ids);

    // Mirrored: wider on dim 1.
    points.clear();
    doc_ids.clear();
    for i in 0..n {
        points.push(0.0);
        points.push(i as f64);
        doc_ids.push(i as u64);
    }
    storage.write("wide_dim1.bkd", 2, 32, &points, &doc_ids);

    assert_eq!(
        root_split_dim(&storage, "wide_dim0.bkd"),
        0,
        "root should split on dim 0 when dim 0 is widest"
    );
    assert_eq!(
        root_split_dim(&storage, "wide_dim1.bkd"),
        1,
        "root should split on dim 1 when dim 1 is widest"
    );
}

#[test]
fn build_subtree_skewed_data_round_trip() {
    // End-to-end correctness on a heavily skewed 3D dataset: dim 0
    // spans [0, n), dim 1 spans [0, 1), dim 2 spans [0, 0.001).
    // Widest-axis splitting must still produce a tree that returns
    // exactly the expected doc ids for an axis-aligned query.
    let mut storage = Files::default();
    let n: usize = 1_000;
    let mut points: Vec<f64> = Vec::with_capacity(n * 3);
    let mut doc_ids: Vec<u64> = Vec::with_capacity(n);
    for i in 0..n {
        let v = i as f64;
        points.push(v); // dim 0: wide
        points.push(v / (n as f64)); // dim 1: narrow [0, 1)
        points.push(v / (n as f64 * 1000.0)); // dim 2: very narrow
        doc_ids.push(i as u64);
    }
    storage.write("skewed.bkd", 3, 64, &points, &doc_ids);

    let reader = storage.open("skewed.bkd").unwrap();
    let results = search(&reader, 
            &[Some(100.0), None, None],
            &[Some(200.0), None, None],
            true,
            true,
        );
    assert_eq!(results, (100u64..=200u64).collect::<Vec<_>>());
}

#[test]
fn intersect_scratch_reuse_across_many_crosses_leaves() {
    // Build a tree with many small leaves and run a query that crosses
    // every leaf boundary, forcing the Crosses branch in intersect_leaf
    // to be taken once per leaf. The shared `IntersectScratch.points`
    // buffer must be reused without losing data across leaf reads.
    let mut storage = Files::default();
    let n: usize = 4_096;
    let block_size: usize = 32; // → ~128 leaves
    let points: Vec<f64> = (0..n).map(|i| i as f64).collect();
    let doc_ids: Vec<u64> = (0..n as u64).collect();
    storage.write("scratch.bkd", 1, block_size, &points, &doc_ids);

    let reader = storage.open("scratch.bkd").unwrap();

    // Pick a query whose bounds (10.5 / (n - 10).5) sit *inside* leaf
    // blocks rather than on their boundaries, guaranteeing many leaves
    // hit the Crosses branch.
    let lower = 10.5;
    let upper = (n - 10) as f64 + 0.5;
    let results = search(&reader, &[Some(lower)], &[Some(upper)], true, true);
    let expected: Vec<u64> = (11u64..=(n as u64 - 10)).collect();
    assert_eq!(results, expected);

    // Re-run the query — the second call uses a fresh scratch but
    // should also be deterministic. This guards against any cross-call
    // state leakage.
    let results2 = search(&reader, &[Some(lower)], &[Some(upper)], true, true);
    assert_eq!(results2, expected);
}

#[test]
fn intersect_inside_avoids_per_point_filter() {
    // Build a 1D tree with 4 leaf blocks; query the entire range so the
    // root subtree is `Inside` and every doc is reported via
    // `visit_inside`, never `visit`.
    let mut storage = Files::default();
    let n: usize = 256;
    let points: Vec<f64> = (0..n).map(|i| i as f64).collect();
    let doc_ids: Vec<u64> = (0..n as u64).collect();
    storage.write("inside.bkd", 1, 32, &points, &doc_ids);

    let reader = storage.open("inside.bkd").unwrap();
    let query = aabb(&[-1e9], &[1e9]);
    let mut v = TracingVisitor::new(query);
    reader.intersect(&mut v).unwrap();

    // Every hit came through visit_inside: the query bounds wholly
    // enclose every cell, so no point ever needed per-coordinate
    // filtering.
    assert_eq!(v.inside_hits.len(), n);
    assert!(v.crosses_hits.is_empty());
    v.inside_hits.sort_unstable();
    let expected: Vec<u64> = (0..n as u64).collect();
    assert_eq!(v.inside_hits, expected);
}

#[test]
fn intersect_outside_prunes_subtree() {
    // Query that lies entirely above every point; expect zero hits and
    // at least one Outside compare result.
    let mut storage = Files::default();
    let n: usize = 128;
    let points: Vec<f64> = (0..n).map(|i| i as f64).collect();
    let doc_ids: Vec<u64> = (0..n as u64).collect();
    storage.write("outside.bkd", 1, 16, &points, &doc_ids);

    let reader = storage.open("outside.bkd").unwrap();
    let query = aabb(&[1000.0], &[2000.0]);
    let mut v = RecordingVisitor::new(query);
    reader.intersect(&mut v).unwrap();

    assert!(v.hits.is_empty());
    assert!(
        v.relations
            .borrow()
            .iter()
            .any(|r| matches!(r, CellRelation::Outside)),
        "expected at least one Outside compare, got {:?}",
        v.relations.borrow()
    );
}

#[test]
fn intersect_crosses_filters_per_point() {
    // Query that overlaps a leaf boundary; expect Crosses leaves and
    // hits accumulated via visit (per-point filtering).
    let mut storage = Files::default();
    let n: usize = 200;
    let points: Vec<f64> = (0..n).map(|i| i as f64).collect();
    let doc_ids: Vec<u64> = (0..n as u64).collect();
    storage.write("crosses.bkd", 1, 16, &points, &doc_ids);

    let reader = storage.open("crosses.bkd").unwrap();
    let query = aabb(&[50.5], &[100.5]);
    let mut v = TracingVisitor::new(query);
    reader.intersect(&mut v).unwrap();

    let expected: Vec<u64> = (51u64..=100u64).collect();
    let mut got = v.crosses_hits.clone();
    got.append(&mut v.inside_hits.clone());
    got.sort_unstable();
    got.dedup();
    assert_eq!(got, expected);
    // At least some hits arrived via the `Crosses` path because the
    // query bounds (50.5 / 100.5) cut through leaf blocks.
    assert!(!v.crosses_hits.is_empty());
}

#[test]
fn range_search_default_impl_matches_legacy_semantics() {
    // The trait's default `range_search` should still produce the same
    // sorted/deduped doc-id list it always has, now via `intersect`.
    let mut storage = Files::default();
    let n: usize = 500;
    let points: Vec<f64> = (0..n).map(|i| i as f64).collect();
    let doc_ids: Vec<u64> = (0..n as u64).collect();
    storage.write("legacy.bkd", 1, 64, &points, &doc_ids);

    let reader = storage.open("legacy.bkd").unwrap();

    // Inclusive bounds.
    let inclusive = search(&reader, &[Some(100.0)], &[Some(200.0)], true, true);
    assert_eq!(inclusive, (100u64..=200u64).collect::<Vec<_>>());

    // Exclusive bounds: 100 < x < 200.
    let exclusive = search(&reader, &[Some(100.0)], &[Some(200.0)], false, false);
    assert_eq!(exclusive, (101u64..=199u64).collect::<Vec<_>>());

    // Unbounded upper.
    let lower_only = search(&reader, &[Some(490.0)], &[None], true, true);
    assert_eq!(lower_only, (490u64..n as u64).collect::<Vec<_>>());
}

#[test]
fn test_bkd_writer_reader_2d_single_leaf_aabb() {
    // Single-leaf tree: exercises the leaf-only write/read path that
    // skips the index section entirely. The new leaf AABB must still be
    // written and consumed.
    let mut storage = Files::default();
    let points: Vec<f64> = vec![1.0, 100.0, 2.0, 200.0, 3.0, 300.0];
    let doc_ids: Vec<u64> = vec![10, 20, 30];

    storage.write("single.bkd", 2, 512, &points, &doc_ids);

    let reader = storage.open("single.bkd").unwrap();
    let results = search(&reader, 
            &[Some(2.0), Some(150.0)],
            &[Some(3.0), Some(250.0)],
            true,
            true,
        );
    assert_eq!(results, vec![20]);
}

// Note: the legacy `test_bkd_tree_creation`, `test_empty_tree`, and
// `test_range_search_exact_bounds` were removed in earlier along with the
// in-memory `SimpleBKDTree` they exercised. Equivalent coverage is
// provided by `test_bkd_writer_empty`, `test_bkd_writer_reader_*`,
// and `range_search_default_impl_matches_legacy_semantics` above.

#[test]
fn write_rejects_nan_coordinate() {
    // NaN has no defined ordering and would corrupt the BKD's split
    // decisions; the writer must reject it up-front with an index
    // error pointing at the offending dimension.
    let points: Vec<f64> = vec![1.0, 2.0, f64::NAN, 4.0];
    let doc_ids: Vec<u64> = vec![10, 20];

    let mut writer = BKDWriter::new(2);
    let err = writer
        .write(&patterns(&points), &doc_ids, &subtract)
        .unwrap_err();
    let msg = err.message();
    assert!(msg.contains("NaN"), "unexpected error: {msg}");
    // Offending position: doc 1 (second doc), dim 0.
    assert!(msg.contains("doc index 1"), "unexpected error: {msg}");
    assert!(msg.contains("dim 0"), "unexpected error: {msg}");
}

#[test]
fn write_accepts_infinity_and_round_trips() {
    // ±Infinity sort consistently against every finite f64, so the
    // writer must accept them and the reader must surface them.
    //
    // This is also the canary for a single-leaf tree spanning
    // -INFINITY..+INFINITY: in sortable-u64 space that's the full
    // width, i.e. `bits_needed(...) == 64` for this dimension — the
    // exact boundary a naive `1u64 << width` bit-packer would panic on
    // (see `BitWriter`/`BitReader`'s `u128` accumulator).
    let mut storage = Files::default();
    let points: Vec<f64> = vec![f64::NEG_INFINITY, -10.0, 0.0, 10.0, f64::INFINITY];
    let doc_ids: Vec<u64> = vec![100, 200, 300, 400, 500];
    storage.write("inf.bkd", 1, 512, &points, &doc_ids);

    let reader = storage.open("inf.bkd").unwrap();

    // Unbounded query: every doc, including the infinities.
    let mut all = search(&reader, &[None], &[None], true, true);
    all.sort_unstable();
    assert_eq!(all, vec![100, 200, 300, 400, 500]);

    // Bounded query that excludes both infinities.
    let finite = search(&reader, &[Some(-100.0)], &[Some(100.0)], true, true);
    assert_eq!(finite, vec![200, 300, 400]);

    // Lower bound at NEG_INFINITY (closed): includes the NEG_INFINITY
    // doc as well as every finite doc up to (and including) 0.0.
    let lower_inf = search(&reader, &[Some(f64::NEG_INFINITY)], &[Some(0.0)], true, true);
    assert_eq!(lower_inf, vec![100, 200, 300]);

    // Upper bound at INFINITY (closed): includes the INFINITY doc.
    let upper_inf = search(&reader, &[Some(0.0)], &[Some(f64::INFINITY)], true, true);
    assert_eq!(upper_inf, vec![300, 400, 500]);
}

// ---- leaf bit-packing primitives ----

#[test]
fn bit_writer_reader_round_trip_various_widths() {
    let widths: [u8; 8] = [0, 1, 7, 8, 9, 33, 63, 64];
    for &width in &widths {
        let values: Vec<u64> = if width == 64 {
            vec![0, 1, u64::MAX / 2, u64::MAX - 1, u64::MAX]
        } else if width == 0 {
            vec![0, 0, 0]
        } else {
            let max_value: u64 = (1u64 << width) - 1;
            (0..64u64)
                .map(|i| i.wrapping_mul(2_654_435_761) % (max_value + 1))
                .collect()
        };
        let mut w = BitWriter::new();
        for &v in &values {
            w.write(v, width);
        }
        let bytes = w.finish();
        let mut r = BitReader::new(&bytes);
        for &expected in &values {
            assert_eq!(r.read(width), expected, "width={width} mismatch");
        }
    }
}

#[test]
fn bit_writer_reader_width_zero_consumes_no_bits() {
    let mut w = BitWriter::new();
    w.write(0, 0);
    w.write(0, 0);
    w.write(0, 0);
    let bytes = w.finish();
    assert!(bytes.is_empty(), "width-0 writes must not emit any bytes");

    let mut r = BitReader::new(&bytes);
    assert_eq!(r.read(0), 0);
    assert_eq!(r.read(0), 0);
}

#[test]
fn bit_writer_reader_width_64_round_trips_full_range() {
    let mut w = BitWriter::new();
    w.write(0, 64);
    w.write(u64::MAX, 64);
    let bytes = w.finish();
    assert_eq!(bytes.len(), 16);
    let mut r = BitReader::new(&bytes);
    assert_eq!(r.read(64), 0);
    assert_eq!(r.read(64), u64::MAX);
}

#[test]
fn sortable_u64_round_trips_and_preserves_total_order() {
    let values: [f64; 10] = [
        0.0,
        -0.0,
        1.0,
        -1.0,
        f64::MIN,
        f64::MAX,
        f64::MIN_POSITIVE,
        5e-324, // smallest positive subnormal
        f64::INFINITY,
        f64::NEG_INFINITY,
    ];
    for &v in &values {
        let bits = f64_to_sortable_u64(v.to_bits());
        let back = sortable_u64_to_f64(bits);
        assert_eq!(back, v.to_bits(), "bit-exact round trip for {v}");
    }
    // Order preservation: total_cmp order matches unsigned u64 order.
    let mut sorted = values.to_vec();
    sorted.sort_by(|a, b| a.total_cmp(b));
    let sortable: Vec<u64> = sorted
        .iter()
        .map(|&v| f64_to_sortable_u64(v.to_bits()))
        .collect();
    let mut expected = sortable.clone();
    expected.sort_unstable();
    assert_eq!(
        sortable, expected,
        "sortable_u64 must preserve total_cmp order"
    );
}

#[test]
fn bits_needed_matches_expected_widths() {
    assert_eq!(bits_needed(0), 0);
    assert_eq!(bits_needed(1), 1);
    assert_eq!(bits_needed(2), 2);
    assert_eq!(bits_needed(255), 8);
    assert_eq!(bits_needed(256), 9);
    assert_eq!(bits_needed(u64::MAX), 64);
}

// ---- leaf format round trips ----

#[test]
fn leaf_with_negative_and_positive_zero_round_trips_exactly() {
    // `+0.0` then `-0.0` then a positive value (and the mirrored
    // order): naive `<`/`>` comparison in `compute_aabb` would keep
    // `leaf_min = +0.0` even though `-0.0` (smaller in total order) is
    // present, corrupting the delta-from-min reconstruction. Regression
    // test for the design-review blocker (see `total_min`/`total_max`).
    for points in [vec![0.0_f64, -0.0, 5.0], vec![-5.0_f64, -0.0, 0.0]] {
        let doc_ids: Vec<u64> = (0..points.len() as u64).collect();
        let mut storage = Files::default();
        storage.write("zero.bkd", 1, 16, &points, &doc_ids);
        let reader = storage.open("zero.bkd").unwrap();
        let mut visitor = CollectAllVisitor::default();
        reader.intersect(&mut visitor).unwrap();
        visitor.entries.sort_by_key(|(id, _)| *id);
        assert_eq!(visitor.entries.len(), points.len());
        for (doc_id, point) in &visitor.entries {
            let expected = points[*doc_id as usize];
            assert_eq!(
                point[0].to_bits(),
                expected.to_bits(),
                "doc {doc_id}: expected bit pattern {:x}, got {:x} (input {points:?})",
                expected.to_bits(),
                point[0].to_bits(),
            );
        }
    }
}

#[test]
fn leaf_with_constant_dimension_round_trips_through_crosses() {
    // dim 1 is constant (5.0) across all points, so its derived bit
    // width is 0 and its packed section is 0 bytes. Forced through
    // `Crosses` (not `Inside`), the path that actually decodes point
    // coordinates, unlike `build_subtree_root_split_is_widest_axis`
    // which only exercises constant dimensions via the index node.
    let n = 20usize;
    let mut points = Vec::with_capacity(n * 2);
    for i in 0..n {
        points.push(i as f64);
        points.push(5.0);
    }
    let doc_ids: Vec<u64> = (0..n as u64).collect();
    let mut storage = Files::default();
    storage.write("const_dim.bkd", 2, n, &points, &doc_ids);
    let reader = storage.open("const_dim.bkd").unwrap();
    let mut visitor = CollectAllVisitor::default();
    reader.intersect(&mut visitor).unwrap();
    assert_eq!(visitor.entries.len(), n);
    for (doc_id, point) in &visitor.entries {
        assert_eq!(point[0], *doc_id as f64);
        assert_eq!(point[1], 5.0, "constant dimension must reconstruct exactly");
    }
}

#[test]
fn leaf_with_extreme_doc_id_range_round_trips() {
    let points = vec![0.0_f64, 1.0];
    let doc_ids = vec![0u64, u64::MAX];
    let mut storage = Files::default();
    storage.write("extreme_doc_id.bkd", 1, 16, &points, &doc_ids);
    let reader = storage.open("extreme_doc_id.bkd").unwrap();
    let mut visitor = CollectAllVisitor::default();
    reader.intersect(&mut visitor).unwrap();
    let mut ids: Vec<u64> = visitor.entries.iter().map(|(id, _)| *id).collect();
    ids.sort_unstable();
    assert_eq!(ids, vec![0, u64::MAX]);
}

/// `GeoBoxPointsVisitor::into_candidates` (`lexical/
/// query/geo.rs`) dedups multiple points sharing a doc_id by "first
/// one seen in leaf traversal order wins" -- the new doc_id sort in
/// `write_leaf_block` MUST be stable (`sort_by_key`, not
/// `sort_unstable_by_key`) or this convention could silently change.
/// Uses enough elements and interleaved duplicate keys that a small
/// slice's tiny-array insertion-sort fallback can't accidentally
/// mask an unstable sort (a handful of elements can stay in order by
/// luck even under `sort_unstable_by_key`).
#[test]
fn duplicate_doc_ids_preserve_relative_point_order() {
    let n = 60usize;
    // doc_id cycles through {10, 20, 30}; the coordinate directly
    // encodes each point's original insertion index so the expected
    // post-sort order can be computed independently of the visitor.
    let doc_ids: Vec<u64> = (0..n).map(|i| 10 * ((i % 3) as u64 + 1)).collect();
    let points: Vec<f64> = (0..n as u64).map(|i| i as f64).collect();
    let mut storage = Files::default();
    storage.write("dup_stable.bkd", 1, n, &points, &doc_ids);
    let reader = storage.open("dup_stable.bkd").unwrap();
    let mut visitor = CollectAllVisitor::default();
    reader.intersect(&mut visitor).unwrap();
    assert_eq!(visitor.entries.len(), n);

    // Expected: stable sort by doc_id, ties broken by original
    // insertion order (the index encoded in the coordinate).
    let mut expected: Vec<(u64, f64)> = (0..n)
        .map(|i| (10 * ((i % 3) as u64 + 1), i as f64))
        .collect();
    expected.sort_by_key(|&(doc_id, _)| doc_id);

    // A single leaf (block_size == n, no splitting), so the visitor's
    // arrival order reflects the on-disk point order directly.
    let actual: Vec<(u64, f64)> = visitor.entries.iter().map(|(id, p)| (*id, p[0])).collect();
    assert_eq!(
        actual, expected,
        "doc_id sort must be stable: points sharing a doc_id must keep \
         their original relative order"
    );
}

/// pins the new format invariant directly -- a leaf's
/// points are always decoded in doc_id-ascending order, regardless of
/// insertion order.
#[test]
fn leaf_points_are_emitted_in_doc_id_ascending_order() {
    let n = 50usize;
    // Insert in reverse order so ascending output can only come from
    // the writer's sort, never from insertion order happening to
    // already be sorted.
    let doc_ids: Vec<u64> = (0..n as u64).rev().collect();
    let points: Vec<f64> = (0..n as u64).map(|i| i as f64).collect();
    let mut storage = Files::default();
    storage.write("ascending.bkd", 1, n, &points, &doc_ids);
    let reader = storage.open("ascending.bkd").unwrap();
    let mut visitor = CollectAllVisitor::default();
    reader.intersect(&mut visitor).unwrap();
    let ids: Vec<u64> = visitor.entries.iter().map(|(id, _)| *id).collect();
    let mut sorted_ids = ids.clone();
    sorted_ids.sort_unstable();
    assert_eq!(
        ids, sorted_ids,
        "leaf points must be emitted in doc_id-ascending order"
    );
}

/// all doc_ids equal in a leaf must still round-trip
/// exactly, and must pack strictly fewer bytes than an otherwise
/// identical leaf needing at least 1 doc_id bit (confirms
/// `doc_id_bits == 0` -- i.e. a genuinely zero-byte packed doc_id
/// section -- rather than merely "small").
#[test]
fn leaf_with_all_identical_doc_ids_packs_zero_bits() {
    let n = 10usize;
    let points: Vec<f64> = (0..n as u64).map(|i| i as f64).collect();

    let all_same: Vec<u64> = vec![42u64; n];
    let mut storage_a = Files::default();
    storage_a.write("same.bkd", 1, n, &points, &all_same);
    let reader = storage_a.open("same.bkd").unwrap();
    let mut visitor = CollectAllVisitor::default();
    reader.intersect(&mut visitor).unwrap();
    assert_eq!(visitor.entries.len(), n);
    for (doc_id, _) in &visitor.entries {
        assert_eq!(*doc_id, 42);
    }

    let mut one_different = all_same;
    one_different[n - 1] = 43;
    let mut storage_b = Files::default();
    storage_b.write("diff.bkd", 1, n, &points, &one_different);
    let same_size = storage_a.size("same.bkd");
    let diff_size = storage_b.size("diff.bkd");
    assert!(
        same_size < diff_size,
        "all-identical doc_ids should pack strictly fewer bytes than a leaf \
         needing at least 1 doc_id bit: same={same_size}, diff={diff_size}"
    );
}

/// small consecutive gaps among nine values, then one
/// huge jump -- the one shape the empirical experiment found doesn't
/// improve over the old fixed-width-from-range scheme (the outlier
/// gap nearly spans the leaf's full range, so `bits_needed(max_delta)`
/// and `bits_needed(max - min)` end up close). Must still round-trip
/// exactly.
#[test]
fn leaf_with_one_large_gap_among_small_gaps() {
    let doc_ids: Vec<u64> = vec![0, 1, 2, 3, 4, 5, 6, 7, 8, 1_000_000];
    let n = doc_ids.len();
    let points: Vec<f64> = (0..n as u64).map(|i| i as f64).collect();
    let mut storage = Files::default();
    storage.write("gap.bkd", 1, n, &points, &doc_ids);
    let reader = storage.open("gap.bkd").unwrap();
    let mut visitor = CollectAllVisitor::default();
    reader.intersect(&mut visitor).unwrap();
    let mut ids: Vec<u64> = visitor.entries.iter().map(|(id, _)| *id).collect();
    ids.sort_unstable();
    let mut expected = doc_ids.clone();
    expected.sort_unstable();
    assert_eq!(ids, expected);
}

#[test]
fn bkd_leaf_bytes_shrink_relative_to_raw_format() {
    // A correlated field (monotonically increasing, like a timestamp)
    // should compress well under bit-packing. Compares the on-disk
    // file size against the pre-earlier raw-format byte count for the
    // same point+doc_id data (ignoring header/index overhead,
    // identical either way and negligible at this scale).
    //
    // Issue earlier tightens this bound: consecutive-delta doc_id
    // packing measures ~42.5% (34026 bytes) for this exact corpus,
    // versus the pre-earlier (v3, independent-delta) ~53% this test
    // used to bound against (60% threshold). 45% leaves headroom for
    // build non-determinism (e.g. a future k-means-style leaf
    // assignment change) without being as loose as the old bound.
    let n: u64 = 5000;
    let points: Vec<f64> = (0..n).map(|i| i as f64).collect();
    let doc_ids: Vec<u64> = (0..n).collect();
    let mut storage = Files::default();
    storage.write("shrink.bkd", 1, 512, &points, &doc_ids);
    let on_disk = storage.size("shrink.bkd");
    let raw_points_and_doc_ids = n * (8 + 8); // pre-earlier: f64 point + u64 doc_id per point
    assert!(
        on_disk < raw_points_and_doc_ids * 45 / 100,
        "expected the packed leaf format to use well under 45% of the raw \
         point+doc_id bytes for a correlated field: on_disk={on_disk}, \
         raw={raw_points_and_doc_ids}"
    );
}

/// a fixed corpus's on-disk size must never exceed a
/// golden upper bound, pinning the consecutive-delta doc_id packing's
/// measured output size so a future regression (e.g. accidentally
/// reverting to independent-delta packing) is caught immediately
/// rather than only via a loose ratio check.
#[test]
fn bkd_file_size_has_golden_upper_bound() {
    let n: u64 = 5000;
    // Uniform-ish 1D data (not perfectly correlated with doc_id, unlike
    // `bkd_leaf_bytes_shrink_relative_to_raw_format`'s corpus) so this
    // pins a second, independent point on the compression curve.
    let points: Vec<f64> = (0..n).map(|i| ((i * 2654435761) % 100000) as f64).collect();
    let doc_ids: Vec<u64> = (0..n).collect();
    let mut storage = Files::default();
    storage.write("golden.bkd", 1, 512, &points, &doc_ids);
    let on_disk = storage.size("golden.bkd");
    // Measured at 36990 bytes when this test was written.
    // A future change that legitimately shrinks this further should
    // lower GOLDEN; one that grows it should be treated as a
    // regression unless deliberately justified.
    assert!(
        on_disk <= GOLDEN,
        "on-disk size {on_disk} exceeds the golden upper bound {GOLDEN} -- \
         if this is an intentional format change, update GOLDEN"
    );
}

// ---- corruption / bounds-check rejection ----

#[test]
fn rejects_leaf_with_doc_id_bits_exceeding_64() {
    // `doc_id_bits = 200` claims a 25-byte packed section for a single
    // value (`ceil(200/8)`); the file supplies exactly that many bytes
    // so `checked_len` alone would let it through — isolating this test
    // to the dedicated `doc_id_bits <= 64` check, not the general
    // packed-length bound (see `rejects_leaf_whose_packed_length_overruns_the_file`
    // for that one). Without the dedicated check, `BitReader::read(200)`
    // would panic on `1u128 << 200` (shift amount >= 128).
    let mut storage = Files::default();
    write_hand_crafted_single_leaf_file(
        &mut storage,
        "bad_doc_id_bits.bkd",
        1,
        1,
        512,
        &[0.0],
        &[0.0],
        1,
        0,
        200,
        &[],
        &[0u8; 25],
    );
    let reader = storage.open("bad_doc_id_bits.bkd").unwrap();
    let mut visitor = CollectAllVisitor::default();
    let err = reader.intersect(&mut visitor).unwrap_err();
    let msg = err.message();
    assert!(msg.contains("doc_id_bits"), "unexpected error: {msg}");
}

#[test]
fn rejects_leaf_with_count_exceeding_total_point_count() {
    let mut storage = Files::default();
    write_hand_crafted_single_leaf_file(
        &mut storage,
        "bad_count.bkd",
        1,
        1,
        512,
        &[0.0],
        &[0.0],
        1000,
        0,
        0,
        &[],
        &[],
    );
    let reader = storage.open("bad_count.bkd").unwrap();
    let mut visitor = CollectAllVisitor::default();
    let err = reader.intersect(&mut visitor).unwrap_err();
    let msg = err.message();
    assert!(msg.contains("total"), "unexpected error: {msg}");
}

#[test]
fn rejects_leaf_whose_packed_length_overruns_the_file() {
    let mut storage = Files::default();
    // leaf_min=0.0, leaf_max=1.0 gives a wide bit width; count=1_000_000
    // claims a multi-megabyte packed section, but the file only
    // actually contains a handful of bytes after the header.
    write_hand_crafted_single_leaf_file(
        &mut storage,
        "overrun.bkd",
        1,
        1_000_000,
        1_000_000,
        &[0.0],
        &[1.0],
        1_000_000,
        0,
        0,
        &[0u8; 4],
        &[],
    );
    let reader = storage.open("overrun.bkd").unwrap();
    let mut visitor = CollectAllVisitor::default();
    let err = reader.intersect(&mut visitor).unwrap_err();
    let msg = err.message();
    assert!(msg.contains("corrupted"), "unexpected error: {msg}");
}

/// shrinking `doc_id_bits` (this revision's whole point)
/// weakens `rejects_leaf_whose_packed_length_overruns_the_file`'s
/// packed-length bound proportionally -- a leaf with zero point bits
/// and zero doc_id bits leaves that bound completely unable to reject
/// an oversized `count` at all. `block_size` closes this independent
/// of the packed-length arithmetic.
#[test]
fn rejects_leaf_with_count_exceeding_block_size() {
    let mut storage = Files::default();
    // leaf_min == leaf_max (0 point bits) and doc_id_bits == 0 together
    // make `total_packed_len == 0`, so only the `block_size` bound (not
    // the packed-length one) can reject this.
    write_hand_crafted_single_leaf_file(
        &mut storage,
        "count_exceeds_block_size.bkd",
        1,
        1_000_000,
        512,
        &[0.0],
        &[0.0],
        1_000_000,
        0,
        0,
        &[],
        &[],
    );
    let reader = storage.open("count_exceeds_block_size.bkd").unwrap();
    let mut visitor = CollectAllVisitor::default();
    let err = reader.intersect(&mut visitor).unwrap_err();
    let msg = err.message();
    assert!(msg.contains("block_size"), "unexpected error: {msg}");
}

/// the first packed doc_id delta must always be 0 by
/// construction (the leaf's smallest doc_id, sorted to position 0,
/// has nothing before it to differ from). A hand-crafted leaf with a
/// nonzero leading delta can only be corrupt or written by a
/// non-conforming encoder, and must be rejected rather than silently
/// decoded into a wrong doc_id (which would also offset every
/// subsequent doc_id in the leaf via the running accumulator).
#[test]
fn rejects_leaf_with_nonzero_leading_doc_id_delta() {
    let mut storage = Files::default();
    write_hand_crafted_single_leaf_file(
        &mut storage,
        "bad_leading_delta.bkd",
        1,
        2,
        512,
        &[0.0],
        &[0.0], // constant dimension -> 0 point bits, no packed point bytes needed
        2,
        100, // doc_id_base
        8,   // doc_id_bits (1 byte/value)
        &[],
        &[5u8, 3u8], // first delta = 5 (must be 0), second = 3
    );
    let reader = storage.open("bad_leading_delta.bkd").unwrap();
    let mut visitor = CollectAllVisitor::default();
    let err = reader.intersect(&mut visitor).unwrap_err();
    let msg = err.message();
    assert!(
        msg.contains("first packed doc_id delta"),
        "unexpected error: {msg}"
    );
}

/// `checked_point_count_u32` must accept every length that
/// actually fits in a `u32`, including the boundary value itself.
#[test]
fn checked_point_count_u32_accepts_representable_lengths() {
    assert_eq!(checked_point_count_u32(0).unwrap(), 0);
    assert_eq!(checked_point_count_u32(5).unwrap(), 5);
    assert_eq!(
        checked_point_count_u32(u32::MAX as usize).unwrap(),
        u32::MAX
    );
}

/// a length one past `u32::MAX` must be rejected with an
/// error, not silently truncated by an `as u32` cast.
#[test]
fn checked_point_count_u32_rejects_lengths_beyond_u32_max() {
    let err = checked_point_count_u32(u32::MAX as usize + 1).unwrap_err();
    let msg = err.message();
    assert!(msg.contains("exceeds u32::MAX"), "unexpected error: {msg}");
}

#[test]
fn every_point_of_a_tree_comes_back() {
    let mut storage = Files::default();
    let n = 700usize;
    let points: Vec<f64> = (0..n)
        .flat_map(|i| [((i * 37) % 101) as f64 - 50.0, ((i * 53) % 97) as f64 / 3.0])
        .collect();
    let doc_ids: Vec<u64> = (0..n as u64).map(|i| i * 5 + 1).collect();
    storage.write("all.bkd", 2, 20, &points, &doc_ids);
    let reader = storage.open("all.bkd").unwrap();
    let mut visitor = CollectAllVisitor::default();
    reader.intersect(&mut visitor).unwrap();
    let mut got = visitor.entries;
    got.sort_by_key(|e| e.0);
    let want: Vec<(u64, Vec<f64>)> = (0..n)
        .map(|i| (doc_ids[i], vec![points[2 * i], points[2 * i + 1]]))
        .collect();
    assert_eq!(got, want);
    let (min, max, count) = reader.value_range(0).unwrap();
    assert_eq!((f64::from_bits(min), f64::from_bits(max), count), (-50.0, 50.0, 700));
    assert!(reader.value_range(2).is_none());
}

#[test]
fn a_range_finds_what_lies_in_it() {
    let mut storage = Files::default();
    let n = 300usize;
    let points: Vec<f64> = (0..n).map(|i| ((i * 71) % 113) as f64).collect();
    let doc_ids: Vec<u64> = (0..n as u64).rev().collect();
    storage.write("range.bkd", 1, 8, &points, &doc_ids);
    let reader = storage.open("range.bkd").unwrap();
    for (low, high) in [(0.0, 112.0), (10.0, 10.0), (40.5, 60.5), (90.0, 20.0)] {
        for (with_low, with_high) in [(true, true), (true, false), (false, true), (false, false)] {
            let inside = |v: f64| {
                (if with_low { low <= v } else { low < v })
                    && (if with_high { v <= high } else { v < high })
            };
            let mut want: Vec<u64> = (0..n)
                .filter(|&i| inside(points[i]))
                .map(|i| doc_ids[i])
                .collect();
            want.sort_unstable();
            assert_eq!(
                search(&reader, &[Some(low)], &[Some(high)], with_low, with_high),
                want
            );
        }
    }
}

#[test]
fn headers_that_are_not_those_of_a_tree_are_refused() {
    let mut storage = Files::default();
    storage.write("good.bkd", 1, 8, &[1.0, 2.0], &[1, 2]);
    let good = storage.files["good.bkd"].clone();

    let mut magic = good.clone();
    magic[0] ^= 1;
    assert!(matches!(
        BKDReader::open(magic).unwrap_err(),
        LaurusError::BkdMagic { .. }
    ));

    let mut version = good.clone();
    version[4] = 9;
    assert_eq!(
        BKDReader::open(version).unwrap_err(),
        LaurusError::BkdVersion { version: 9 }
    );

    let mut width = good.clone();
    width[12] = 4;
    assert_eq!(
        BKDReader::open(width).unwrap_err(),
        LaurusError::BkdBytesPerDim { bytes_per_dim: 4 }
    );

    assert!(matches!(
        BKDReader::open(good[..10].to_vec()).unwrap_err(),
        LaurusError::Truncated { .. }
    ));
    assert!(matches!(
        BKDReader::open(good[..20].to_vec()).unwrap_err(),
        LaurusError::Overrun { .. }
    ));
}

#[test]
fn an_index_that_leads_back_to_itself_is_refused() {
    let mut storage = Files::default();
    let points: Vec<f64> = (0..64).map(|i| i as f64).collect();
    let doc_ids: Vec<u64> = (0..64).collect();
    storage.write("cycle.bkd", 1, 8, &points, &doc_ids);
    let root = storage.open("cycle.bkd").unwrap().header().root_node_offset;
    let mut bytes = storage.files["cycle.bkd"].clone();
    // A node is its dimension, the value it splits at, the bounds of its children, and
    // their places.
    let left = root as usize + 12 + 32;
    bytes[left..left + 8].copy_from_slice(&root.to_le_bytes());
    let reader = BKDReader::open(bytes).unwrap();
    let mut visitor = CollectAllVisitor::default();
    assert_eq!(
        reader.intersect(&mut visitor).unwrap_err(),
        LaurusError::IndexCycle
    );
}

#[test]
fn packed_values_come_back() {
    for width in [0u8, 1, 5, 17, 64] {
        let top = if width == 64 { u64::MAX } else { (1u64 << width) - 1 };
        let values: Vec<u64> = (0..21u64).map(|i| i.wrapping_mul(0x9e37_79b9_7f4a_7c15) & top).collect();
        let packed = pack(&values, width);
        assert_eq!(packed.len(), (21 * width as usize).div_ceil(8));
        assert_eq!(unpack(&packed, 21, width), values);
    }
}

#[test]
fn least_and_greatest_tell_zeros_apart() {
    let (plus, minus) = (0.0f64.to_bits(), (-0.0f64).to_bits());
    assert_eq!(total_min(plus, minus), minus);
    assert_eq!(total_max(minus, plus), plus);
}

#[test]
fn a_range_visitor_keeps_its_hits_in_the_order_of_the_walk() {
    let mut visitor = RangeQueryVisitor::new(&[Some(1.0f64.to_bits())], &[None], false, true);
    visitor.visit(7, &[1.0f64.to_bits()]);
    visitor.visit(5, &[2.0f64.to_bits()]);
    visitor.visit_inside(3);
    assert_eq!(visitor.into_hits(), vec![5, 3]);
}

#[test]
fn blocks_without_room_hold_no_points() {
    let mut writer = BKDWriter::new(1).with_block_size(0);
    let err = writer
        .write(&patterns(&[1.0, 2.0]), &[1, 2], &subtract)
        .unwrap_err();
    assert_eq!(err, LaurusError::EmptySubtree);
    assert_eq!(err.message(), "build_subtree called with empty indices");
}

#[test]
fn the_marks_of_a_file_are_read() {
    let mut storage = Files::default();
    storage.write("marks.bkd", 2, 8, &[1.0, 2.0], &[1]);
    let reader = storage.open("marks.bkd").unwrap();
    let header = reader.header();
    assert_eq!(header.magic, BKD_MAGIC);
    assert_eq!(header.version, BKD_VERSION);
    assert_eq!(header.bytes_per_dim, 8);
}

#[test]
fn writes_of_differing_widths_are_undone_by_reads_of_the_same_widths() {
    let writes = [
        (0b101u64, 3u8),
        (u64::MAX, 64),
        (7, 0),
        (0x1234, 8),
        (1, 1),
        (0xdead_beef, 33),
    ];
    let mut w = BitWriter::new();
    for (value, width) in writes {
        w.write(value, width);
    }
    let bytes = w.finish();
    // 3 + 64 + 0 + 8 + 1 + 33 bits.
    assert_eq!(bytes.len(), 14);
    assert_eq!(bytes[0], 0b1111_1101);
    assert_eq!(bytes[13] >> 5, 0);
    let mut r = BitReader::new(&bytes);
    let read: Vec<u64> = writes.iter().map(|(_, width)| r.read(*width)).collect();
    assert_eq!(read, vec![0b101, u64::MAX, 0, 0x34, 1, 0xdead_beef]);
}

#[test]
fn a_visitor_that_crosses_every_cell_is_shown_every_point_once() {
    let mut storage = Files::default();
    let points: Vec<f64> = (0..60).map(|i| f64::from((i * 7) % 20) - 10.0).collect();
    let ids: Vec<u64> = (0..30u64).map(|i| i / 2).collect();
    storage.write("all.bkd", 2, 4, &points, &ids);
    let reader = storage.open("all.bkd").unwrap();
    let mut visitor = CollectAllVisitor::default();
    reader.intersect(&mut visitor).unwrap();
    let mut shown: Vec<(u64, Vec<u64>)> = visitor
        .entries
        .iter()
        .map(|(id, p)| (*id, patterns(p)))
        .collect();
    let mut written: Vec<(u64, Vec<u64>)> = (0..30)
        .map(|i| (ids[i], patterns(&points[2 * i..2 * i + 2])))
        .collect();
    shown.sort();
    written.sort();
    assert_eq!(shown, written);
}

#[test]
fn a_block_size_that_a_file_cannot_state_is_told_from_one_that_it_can() {
    let huge = (1u64 << 32) as usize;
    if huge == 0 {
        return;
    }
    let mut storage = Files::default();
    // The file states what is left of the size in 32 bits: 5, then 0.
    storage.write("some.bkd", 1, huge + 5, &[1.0, 2.0, 3.0], &[1, 2, 3]);
    let reader = storage.open("some.bkd").unwrap();
    assert_eq!(search(&reader, &[None], &[None], true, true), vec![1, 2, 3]);
    storage.write("none.bkd", 1, huge, &[1.0, 2.0, 3.0], &[1, 2, 3]);
    let reader = storage.open("none.bkd").unwrap();
    assert_eq!(
        reader.range_search(&[None], &[None], true, true).unwrap_err(),
        LaurusError::LeafBlockSize {
            points: 3,
            block_size: 0
        }
    );
}
