//! Posting lists, the iterators over them, and the cache of terms.

use std::sync::Arc;

use laurus::dictionary::TermInfo;
use laurus::error::LaurusError;
use laurus::posting::{
    build_skip_levels, Costs, DecodedPostingList, Posting, PostingIterator, Postings,
    SKIP_INTERVAL, WEIGHT_ONE,
};
use laurus::posting_iterator::{InvertedIndexPostingIterator, MergedPostingIterator};
use laurus::segment::SegmentInfo;
use laurus::term_cache::{CacheManager, CacheStats, EST_TERM_ENTRY_BYTES};

fn at(doc_id: u64) -> Posting {
    Posting {
        doc_id,
        frequency: 1,
        positions: Some(vec![0]),
        weight: 1.0f32.to_bits(),
    }
}

#[test]
fn test_advanced_posting_iterator() {
    let postings = vec![at(1), at(3), at(5), at(7), at(9)];

    let mut iter = InvertedIndexPostingIterator::with_blocks(postings, 2);

    // Test skip_to functionality
    assert!(iter.skip_to(5).unwrap());
    assert_eq!(iter.doc_id(), 5);

    // Test next
    assert!(iter.next().unwrap());
    assert_eq!(iter.doc_id(), 7);

    // Test skip past end
    assert!(!iter.skip_to(15).unwrap());
    assert_eq!(iter.doc_id(), u64::MAX);
}

/// Two iterators over the same shared list keep independent cursors, return identical
/// results and share the list.
#[test]
fn from_decoded_soa_arc_shares_backing_without_deep_clone() {
    let doc_ids = vec![2u32, 4, 6, 8, 10];
    let skip_levels = build_skip_levels(&doc_ids);
    let shared = Arc::new(DecodedPostingList {
        term: "t".to_string(),
        doc_ids: doc_ids.clone(),
        frequencies: vec![1, 1, 1, 1, 1],
        weights: Vec::new(),
        positions: None,
        skip_levels,
        total_frequency: 5,
        doc_frequency: 5,
    });
    assert_eq!(Arc::strong_count(&shared), 1);

    // Each iterator must hold an `Arc::clone`, not a deep copy.
    let mut it_a = InvertedIndexPostingIterator::from_decoded_soa_arc(Arc::clone(&shared));
    let mut it_b = InvertedIndexPostingIterator::from_decoded_soa_arc(Arc::clone(&shared));
    assert_eq!(
        Arc::strong_count(&shared),
        3,
        "both iterators must share the cached Arc (no deep clone)"
    );

    // Independent cursors: advancing one must not move the other.
    assert!(it_a.skip_to(6).unwrap());
    assert_eq!(it_a.doc_id(), 6);
    assert!(it_b.next().unwrap());
    assert_eq!(it_b.doc_id(), 2);

    // Full sweep over `it_b` matches the source doc ids.
    let mut seen = vec![it_b.doc_id()];
    while it_b.next().unwrap() {
        seen.push(it_b.doc_id());
    }
    assert_eq!(seen, vec![2, 4, 6, 8, 10]);

    // Dropping the iterators releases their Arc references.
    drop(it_a);
    drop(it_b);
    assert_eq!(Arc::strong_count(&shared), 1);
}

/// `skip_to` must agree with a naive linear scan across the full sweep of corpus sizes
/// and target positions.
#[test]
fn test_skip_to_matches_linear_scan() {
    for &n in &[
        1usize,
        SKIP_INTERVAL - 1,
        SKIP_INTERVAL,
        SKIP_INTERVAL + 1,
        SKIP_INTERVAL * SKIP_INTERVAL,
        5_000,
    ] {
        // Build posting list with doc_id = i * 3 + 7 — gaps + offset so
        // equality-on-boundary cases get exercised, not just contiguous ranges.
        let postings: Vec<Posting> = (0..n as u64)
            .map(|i| Posting::with_frequency(i * 3 + 7, 1))
            .collect();
        let doc_ids: Vec<u64> = postings.iter().map(|p| p.doc_id).collect();

        // Pick a handful of target doc ids: before first, exactly first/last, one past
        // every level boundary, and well past end-of-list.
        let mut targets: Vec<u64> = vec![0, doc_ids[0]];
        if n > 1 {
            targets.push(doc_ids[n / 2]);
            targets.push(doc_ids[n / 2] + 1);
        }
        targets.push(doc_ids[n - 1]);
        targets.push(doc_ids[n - 1] + 1);
        targets.push(doc_ids[n - 1] + 1000);
        // Anything beyond u32::MAX must exhaust the iterator.
        targets.push(u64::from(u32::MAX) + 1);

        for &target in &targets {
            let mut iter = InvertedIndexPostingIterator::new(postings.clone());
            let got = iter.skip_to(target).unwrap();

            // Linear-scan reference: the first doc id >= target.
            let want_idx = doc_ids.iter().position(|&d| d >= target);
            match want_idx {
                Some(idx) => {
                    assert!(got, "expected hit at target={target} n={n}");
                    assert_eq!(
                        iter.doc_id(),
                        doc_ids[idx],
                        "wrong doc_id at target={target} n={n}"
                    );
                }
                None => {
                    assert!(!got, "expected miss at target={target} n={n}");
                    assert_eq!(
                        iter.doc_id(),
                        u64::MAX,
                        "exhausted iter should report u64::MAX (target={target} n={n})"
                    );
                }
            }
        }
    }
}

/// Repeated `skip_to` calls must advance monotonically without regressing.
#[test]
fn test_skip_to_is_monotonic() {
    let n: usize = 2_048;
    let postings: Vec<Posting> = (0..n as u64)
        .map(|i| Posting::with_frequency(i * 2 + 1, 1))
        .collect();
    let mut iter = InvertedIndexPostingIterator::new(postings);
    let mut prev_doc: u64 = 0;
    for target in (50..n as u64 * 2).step_by(101) {
        assert!(iter.skip_to(target).unwrap(), "target={target}");
        let current = iter.doc_id();
        assert!(
            current >= prev_doc,
            "regressed: prev={prev_doc} current={current} target={target}"
        );
        assert!(
            current >= target,
            "landed before target: current={current} target={target}"
        );
        prev_doc = current;
    }
}

fn term_info(
    posting_offset: u64,
    posting_length: u64,
    doc_frequency: u64,
    total_frequency: u64,
) -> TermInfo {
    TermInfo {
        posting_offset,
        posting_length,
        doc_frequency,
        total_frequency,
        max_score_factor: 0,
        block_max: Vec::new(),
    }
}

fn hit_ratio(stats: &CacheStats) -> f64 {
    stats.hits as f64 / (stats.hits + stats.misses) as f64
}

#[test]
fn test_cache_manager() {
    let mut cache = CacheManager::new(1024);
    let key = "field:term".to_string();
    let info = term_info(100, 50, 5, 10);

    // Test cache miss
    assert!(cache.get_term_info(&key).is_none());

    // Test cache insertion and hit
    cache.cache_term_info(key.clone(), info.clone());
    let cached = cache.get_term_info(&key).unwrap();
    assert_eq!(cached.doc_frequency, info.doc_frequency);

    // Test cache statistics
    let stats = cache.stats();
    assert_eq!(stats.hits, 1);
    assert_eq!(stats.misses, 1);
    assert!(hit_ratio(&stats) > 0.0);
}

/// The term cache must evict the least-recently-used entry — not a random one — when it
/// reaches capacity.
#[test]
fn test_cache_manager_lru_eviction() {
    // `memory_limit / EST_TERM_ENTRY_BYTES` = 128 / 64 = 2 entries.
    let mut cache = CacheManager::new(2 * EST_TERM_ENTRY_BYTES);

    cache.cache_term_info("a".to_string(), term_info(1, 1, 1, 1));
    cache.cache_term_info("b".to_string(), term_info(2, 2, 2, 2));

    // Touch "a" so "b" becomes the least-recently-used entry.
    assert!(cache.get_term_info("a").is_some());

    // Inserting "c" must evict "b" (the LRU victim), keeping "a" and "c".
    cache.cache_term_info("c".to_string(), term_info(3, 3, 3, 3));

    assert!(
        cache.get_term_info("a").is_some(),
        "recently-used 'a' survives"
    );
    assert!(
        cache.get_term_info("c").is_some(),
        "just-inserted 'c' survives"
    );
    assert!(
        cache.get_term_info("b").is_none(),
        "least-recently-used 'b' must be evicted, not a random entry"
    );
}

#[test]
fn a_cached_term_is_found_until_it_is_replaced() {
    let mut cache = CacheManager::new(0);
    cache.cache_term_info("x".to_string(), term_info(1, 2, 3, 4));
    assert_eq!(*cache.get_term_info("x").unwrap(), term_info(1, 2, 3, 4));
    cache.cache_term_info("x".to_string(), term_info(5, 6, 7, 8));
    assert_eq!(*cache.get_term_info("x").unwrap(), term_info(5, 6, 7, 8));
    // There is room for one entry at least, and a single one stays.
    cache.cache_term_info("y".to_string(), term_info(9, 9, 9, 9));
    assert!(cache.get_term_info("x").is_none());
    let stats = cache.stats();
    assert_eq!(stats.memory_limit, 0);
    assert_eq!(stats.memory_usage, EST_TERM_ENTRY_BYTES);
}

#[test]
fn test_segment_info() {
    let info = SegmentInfo {
        segment_id: "seg_000001".to_string(),
        doc_count: 1000,
        min_doc_id: 0,
        max_doc_id: 999,
        generation: 1,
        has_deletions: false,
        deleted_count: None,
        shard_id: 0,
    };

    assert_eq!(info.segment_id, "seg_000001");
    assert_eq!(info.doc_count, 1000);
    assert_eq!(info.min_doc_id, 0);
    assert_eq!(info.max_doc_id, 999);
    assert!(!info.has_deletions);
}

fn walk<I: PostingIterator>(mut it: I) -> Vec<(u64, u64, Vec<u64>)> {
    let mut out = Vec::new();
    while it.next().unwrap() {
        out.push((it.doc_id(), it.term_freq(), it.positions().unwrap()));
    }
    assert_eq!(it.doc_id(), u64::MAX);
    out
}

fn list(ids: &[u64], frequency: u32, positions: &[u32]) -> InvertedIndexPostingIterator {
    InvertedIndexPostingIterator::new(
        ids.iter()
            .map(|&doc_id| Posting {
                doc_id,
                frequency,
                positions: Some(positions.to_vec()),
                weight: WEIGHT_ONE,
            })
            .collect(),
    )
}

#[test]
fn merged_postings_come_in_the_order_of_documents() {
    let merged = MergedPostingIterator::new(vec![
        list(&[1, 5, 9], 1, &[0]),
        list(&[2, 6], 2, &[3, 4]),
        list(&[], 1, &[]),
    ])
    .unwrap();
    assert_eq!(
        walk(merged),
        vec![
            (1, 1, vec![0]),
            (2, 2, vec![3, 4]),
            (5, 1, vec![0]),
            (6, 2, vec![3, 4]),
            (9, 1, vec![0]),
        ]
    );
}

#[test]
fn merged_postings_skip_to_the_first_document_that_is_not_before() {
    let lists = || {
        vec![
            list(&[1, 5, 9], 1, &[0]),
            list(&[2, 6], 2, &[3]),
            list(&[4, 40], 3, &[7]),
        ]
    };
    for target in 0..45u64 {
        let mut merged = MergedPostingIterator::new(lists()).unwrap();
        let found = merged.skip_to(target).unwrap();
        let want = [1u64, 2, 4, 5, 6, 9, 40].iter().copied().find(|&d| d >= target);
        assert_eq!(found, want.is_some());
        assert_eq!(merged.doc_id(), want.unwrap_or(u64::MAX));
    }
}

#[test]
fn an_iterator_without_postings_is_exhausted() {
    let mut it = InvertedIndexPostingIterator::new(Vec::new());
    assert_eq!(it.doc_id(), u64::MAX);
    assert!(!it.next().unwrap());
    assert_eq!(it.term_freq(), 0);
    assert!(it.positions().unwrap().is_empty());
    assert_eq!(it.cost(), 0);
}

#[test]
fn documents_are_held_in_thirty_two_bits() {
    let mut it = InvertedIndexPostingIterator::new(vec![Posting::with_frequency(
        u64::from(u32::MAX) + 4,
        9,
    )]);
    assert!(it.next().unwrap());
    assert_eq!(it.doc_id(), 3);
    assert_eq!(it.term_freq(), 9);
    assert_eq!(Posting::with_frequency(1, 1).weight, 1.0f32.to_bits());
}

#[test]
fn skip_levels_sample_every_interval() {
    let ids: Vec<u32> = (0..200).collect();
    let levels = build_skip_levels(&ids);
    assert_eq!(levels.len(), 2);
    assert_eq!(levels[0].len(), 25);
    assert_eq!(levels[0][0], 7);
    assert_eq!(levels[1], vec![63, 127, 191]);
    assert!(build_skip_levels(&vec![1, 2, 3]).is_empty());
}

#[test]
fn the_cost_of_a_list_stays_as_it_is_walked() {
    let mut it = list(&[1, 5, 9], 1, &[0]);
    assert_eq!(it.cost(), 3);
    while it.next().unwrap() {
        assert_eq!(it.cost(), 3);
    }
    assert_eq!(it.cost(), 3);
    let mut it = list(&[1, 5, 9], 1, &[0]);
    assert!(!it.skip_to(10).unwrap());
    assert_eq!(it.cost(), 3);
}

#[test]
fn a_merged_stream_costs_what_its_open_streams_cost() {
    let mut merged = MergedPostingIterator::new(vec![
        list(&[1, 5, 9], 1, &[0]),
        list(&[2, 6], 2, &[3, 4]),
        list(&[], 1, &[]),
    ])
    .unwrap();
    let mut costs = vec![merged.cost()];
    while merged.next().unwrap() {
        costs.push(merged.cost());
    }
    costs.push(merged.cost());
    // The second stream has ended when 9 is reached.
    assert_eq!(costs, vec![5, 5, 5, 5, 5, 3, 0]);
}

#[test]
fn the_size_of_blocks_has_no_effect() {
    let postings = || -> Vec<Posting> { (0..100u64).map(|i| at(3 * i)).collect() };
    for block_size in [0usize, 1, 2, 64, 1000] {
        let mut plain = InvertedIndexPostingIterator::new(postings());
        let mut blocked = InvertedIndexPostingIterator::with_blocks(postings(), block_size);
        for target in [0u64, 1, 50, 51, 52, 200, 199, 299, 400] {
            assert_eq!(plain.skip_to(target).unwrap(), blocked.skip_to(target).unwrap());
            assert_eq!(plain.doc_id(), blocked.doc_id());
            assert_eq!(plain.next().unwrap(), blocked.next().unwrap());
            assert_eq!(plain.doc_id(), blocked.doc_id());
            assert_eq!(plain.term_freq(), blocked.term_freq());
            assert_eq!(plain.positions().unwrap(), blocked.positions().unwrap());
            assert_eq!(plain.cost(), blocked.cost());
        }
    }
}

/// Gives its documents and then fails.
struct Failing {
    docs: Vec<u64>,
    place: Option<usize>,
    reason: LaurusError,
}

impl Failing {
    fn current(&self) -> Option<u64> {
        self.place.and_then(|i| self.docs.get(i).copied())
    }
}

impl PostingIterator for Failing {
    fn wf(&self) -> bool {
        unreachable!("ghost")
    }

    fn begun(&self) -> bool {
        unreachable!("ghost")
    }

    fn ahead(&self) -> Postings {
        unreachable!("ghost")
    }

    fn costs(&self) -> Costs {
        unreachable!("ghost")
    }

    fn may_fail(&self, _: LaurusError) -> bool {
        unreachable!("ghost")
    }

    fn may_go_on(&self) -> bool {
        unreachable!("ghost")
    }

    fn lemma_documents(&self) {}

    fn doc_id(&self) -> u64 {
        self.current().unwrap_or(u64::MAX)
    }

    fn term_freq(&self) -> u64 {
        self.current().map_or(0, |_| 1)
    }

    fn positions(&self) -> Result<Vec<u64>, LaurusError> {
        Err(LaurusError::NoSegments)
    }

    fn next(&mut self) -> Result<bool, LaurusError> {
        let place = self.place.map_or(0, |i| i + 1);
        if place >= self.docs.len() {
            return Err(self.reason.clone());
        }
        self.place = Some(place);
        Ok(true)
    }

    fn skip_to(&mut self, target: u64) -> Result<bool, LaurusError> {
        while self.doc_id() < target {
            self.next()?;
        }
        Ok(true)
    }

    fn cost(&self) -> u64 {
        self.docs.len() as u64
    }
}

#[test]
fn a_merged_stream_hands_on_the_failures_of_its_streams() {
    let failing = |docs: &[u64]| Failing {
        docs: docs.to_vec(),
        place: None,
        reason: LaurusError::ReaderClosed,
    };
    // A stream that fails on its first step cannot be merged.
    assert_eq!(
        MergedPostingIterator::new(vec![failing(&[4]), failing(&[])]).err(),
        Some(LaurusError::ReaderClosed)
    );
    // The first that fails ends it.
    let other = |docs: &[u64]| Failing {
        reason: LaurusError::MergedCount,
        ..failing(docs)
    };
    assert_eq!(
        MergedPostingIterator::new(vec![failing(&[4]), other(&[]), failing(&[])]).err(),
        Some(LaurusError::MergedCount)
    );
    assert_eq!(
        MergedPostingIterator::new(vec![failing(&[]), other(&[])]).err(),
        Some(LaurusError::ReaderClosed)
    );
    let mut merged = MergedPostingIterator::new(vec![failing(&[4, 6]), failing(&[5])]).unwrap();
    assert!(merged.next().unwrap());
    assert_eq!(merged.doc_id(), 4);
    assert_eq!(merged.positions().unwrap_err(), LaurusError::NoSegments);
    assert!(merged.next().unwrap());
    assert_eq!(merged.doc_id(), 5);
    assert_eq!(merged.next().unwrap_err(), LaurusError::ReaderClosed);
    let mut merged = MergedPostingIterator::new(vec![failing(&[4, 6]), failing(&[5])]).unwrap();
    assert_eq!(merged.skip_to(9).unwrap_err(), LaurusError::ReaderClosed);
}
