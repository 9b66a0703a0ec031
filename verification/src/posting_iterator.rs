//! Iterators over the posting lists of one segment and of several segments.

use std::sync::Arc;

use vstd::multiset::*;
use vstd::prelude::*;
use vstd::seq_lib::*;

use crate::error::LaurusError;
use crate::posting;
use crate::posting::{DecodedPostingList, Posting, PostingIterator, PostingView, SKIP_INTERVAL};

verus! {

// ---------------------------------------------------------------------------
// One segment
// ---------------------------------------------------------------------------

/// Walks over the posting list of a segment.
#[derive(Debug)]
pub struct InvertedIndexPostingIterator {
    data: Arc<DecodedPostingList>,
    position: usize,
    started: bool,
}

/// What postings say.
pub open spec fn shown_postings(postings: Seq<Posting>) -> Seq<PostingView> {
    postings.map_values(|p: Posting| p.shown())
}

/// Whether some posting has positions.
pub open spec fn any_positions(postings: Seq<Posting>) -> bool {
    exists|i: int| 0 <= i < postings.len() && (#[trigger] postings[i]).positions is Some
}

fn has_positions(postings: &Vec<Posting>) -> (r: bool)
    ensures
        r == any_positions(postings@),
{
    let mut i: usize = 0;
    while i < postings.len()
        invariant
            i <= postings@.len(),
            forall|k: int| 0 <= k < i ==> (#[trigger] postings@[k]).positions is None,
        decreases postings@.len() - i,
    {
        if postings[i].positions.is_some() {
            assert(postings@[i as int].positions is Some);
            return true;
        }
        i = i + 1;
    }
    false
}

/// Drops the upper half of a document number.
fn narrow(doc_id: u64) -> (r: u32)
    ensures
        r == posting::narrowed(doc_id),
{
    #[verifier::truncate]
    (doc_id as u32)
}

/// A walk over the posting list of a segment: the whole list, where the walk stands, and
/// whether it has begun.
#[verifier::ext_equal]
pub struct Walk {
    pub postings: Seq<PostingView>,
    pub place: int,
    pub begun: bool,
}

/// The first entry of a level in `lo..hi` that is at least `target`, or `hi`.
pub open spec fn first_from(level: Seq<u32>, lo: int, hi: int, target: u32) -> int
    decreases hi - lo,
{
    if lo >= hi || level[lo] >= target {
        lo
    } else {
        first_from(level, lo + 1, hi, target)
    }
}

/// Where the way down a skip table leads from a bucket of a level.
pub open spec fn descended(
    ids: Seq<u32>,
    cursor: int,
    target: u32,
    level: int,
    bucket: int,
    lower: int,
) -> int
    decreases level,
{
    if level <= 0 {
        lower
    } else {
        let entries = posting::skip_levels_of(ids)[level - 1];
        let step = posting::pow8(level as nat) as int;
        let parent_lo = bucket * 8;
        let parent_hi = if parent_lo + 8 <= entries.len() {
            parent_lo + 8
        } else {
            entries.len() as int
        };
        let behind = cursor / step;
        let lo = if behind >= parent_lo {
            behind
        } else {
            parent_lo
        };
        if lo >= parent_hi {
            descended(
                ids,
                cursor,
                target,
                level - 1,
                if parent_hi > 0 {
                    parent_hi - 1
                } else {
                    0
                },
                if cursor > lower {
                    cursor
                } else {
                    lower
                },
            )
        } else {
            let b = first_from(entries, lo, parent_hi, target);
            descended(ids, cursor, target, level - 1, b, b * step)
        }
    }
}

/// Where the skip table leads from a place.
pub open spec fn led_by_levels(ids: Seq<u32>, cursor: int, target: u32) -> int {
    let table = posting::skip_levels_of(ids);
    let top = table.len() - 1;
    let step = posting::pow8((top + 1) as nat) as int;
    if cursor >= ids.len() {
        ids.len() as int
    } else if table.len() == 0 || cursor / step >= table[top].len() {
        cursor
    } else {
        let b = first_from(table[top], cursor / step, table[top].len() as int, target);
        let lower = descended(ids, cursor, target, top, b, b * step);
        if lower > cursor {
            lower
        } else {
            cursor
        }
    }
}

/// Where a walk over documents that stands at a place lands when it skips to a target.
pub open spec fn landing(ids: Seq<u32>, place: int, target: u64) -> int {
    if ids.len() == 0 {
        place
    } else if target > u32::MAX {
        ids.len() as int
    } else {
        first_from(
            ids,
            led_by_levels(ids, place, target as u32),
            ids.len() as int,
            target as u32,
        )
    }
}

/// The documents of postings in 32 bits, as a segment keeps them.
pub open spec fn kept_ids(postings: Seq<PostingView>) -> Seq<u32> {
    postings.map_values(|p: PostingView| p.doc_id as u32)
}

impl Walk {
    /// The walk once it was asked for the next posting.
    pub open spec fn stepped(self) -> Walk {
        if self.postings.len() == 0 {
            self
        } else if !self.begun {
            Walk { begun: true, ..self }
        } else if self.place < self.postings.len() {
            Walk { place: self.place + 1, ..self }
        } else {
            self
        }
    }

    /// The walk once it has skipped to a target.
    pub open spec fn skipped(self, target: u64) -> Walk {
        Walk { place: landing(kept_ids(self.postings), self.place, target), begun: true, ..self }
    }

    /// The walk after these calls.
    pub open spec fn after(self, moves: Seq<Move>) -> Walk
        decreases moves.len(),
    {
        if moves.len() == 0 {
            self
        } else {
            match moves.last() {
                Move::Next => self.after(moves.drop_last()).stepped(),
                Move::SkipTo(target) => self.after(moves.drop_last()).skipped(target),
            }
        }
    }

    /// What is answered where the walk stands.
    pub open spec fn answer(self) -> Answer {
        let found = self.place < self.postings.len();
        let p = self.postings[self.place];
        Answer {
            found,
            doc_id: if found {
                p.doc_id
            } else {
                u64::MAX
            },
            term_freq: if found {
                p.frequency
            } else {
                0
            },
            positions: if found {
                p.positions
            } else {
                Seq::empty()
            },
            cost: self.postings.len(),
        }
    }
}

/// A call that moves a walk.
pub enum Move {
    Next,
    SkipTo(u64),
}

/// What a walk answers: whether it stands at a posting, what that posting says, and what
/// the walk costs.
pub struct Answer {
    pub found: bool,
    pub doc_id: u64,
    pub term_freq: u64,
    pub positions: Seq<u64>,
    pub cost: nat,
}

/// The size of the blocks has no effect: whatever is asked of two iterators over the same
/// postings, both answer alike.
pub proof fn lemma_block_size_ignored(
    postings: Vec<Posting>,
    block_size: usize,
    plain: InvertedIndexPostingIterator,
    blocked: InvertedIndexPostingIterator,
    moves: Seq<Move>,
)
    requires
        call_ensures(InvertedIndexPostingIterator::new, (postings,), plain),
        call_ensures(InvertedIndexPostingIterator::with_blocks, (postings, block_size), blocked),
    ensures
        plain.walk().after(moves) == blocked.walk().after(moves),
        plain.walk().after(moves).answer() == blocked.walk().after(moves).answer(),
{
}

impl InvertedIndexPostingIterator {
    /// The walk over the whole list.
    pub closed spec fn walk(&self) -> Walk {
        Walk {
            postings: self.data.postings(),
            place: self.position as int,
            begun: self.started,
        }
    }

    /// What the walk says of the postings ahead, of the costs, and whether it has begun.
    pub proof fn lemma_walk(&self)
        requires
            self.wf(),
        ensures
            0 <= self.walk().place <= self.walk().postings.len(),
            self.ahead() == self.walk().postings.skip(self.walk().place),
            self.costs() == posting::even_costs(self.walk().postings.len(), self.ahead().len()),
            self.begun() == self.walk().begun,
            self.walk().answer().found == (self.ahead().len() > 0),
            self.ahead().len() > 0 ==> self.walk().postings[self.walk().place] == self.ahead()[0],
            self.walk().answer().cost == self.costs()[0],
    {
        assert(self.ahead() =~= self.walk().postings.skip(self.walk().place));
        assert(self.costs() =~= posting::even_costs(
            self.walk().postings.len(),
            self.ahead().len(),
        ));
    }

    /// The list that is walked over.
    pub closed spec fn list(&self) -> DecodedPostingList {
        *self.data
    }

    /// An iterator over postings.
    pub fn new(postings: Vec<Posting>) -> (r: InvertedIndexPostingIterator)
        ensures
            r.wf(),
            !r.begun(),
            r.ahead() == shown_postings(postings@),
            r.costs() == posting::even_costs(postings@.len(), postings@.len()),
            r.walk() == (Walk { postings: shown_postings(postings@), place: 0, begun: false }),
            r.list().term@ == Seq::<char>::empty(),
            r.list().weights@ == Seq::<u32>::empty(),
            r.list().total_frequency == 0,
            r.list().doc_frequency == postings@.len(),
            r.list().positions is Some <==> any_positions(postings@),
    {
        let decoded: DecodedPostingList = Self::soa_from_aos(&postings);
        assert(decoded.postings().len() == decoded.doc_ids@.len());
        let r = Self::from_decoded_soa(decoded);
        assert(r.ahead() =~= shown_postings(postings@));
        assert(shown_postings(postings@).len() == postings@.len());
        r
    }

    /// An iterator over postings. The size of the blocks is fixed, so
    /// `_block_size` has no effect.
    pub fn with_blocks(postings: Vec<Posting>, _block_size: usize) -> (r:
        InvertedIndexPostingIterator)
        ensures
            r.wf(),
            !r.begun(),
            r.ahead() == shown_postings(postings@),
            r.costs() == posting::even_costs(postings@.len(), postings@.len()),
            r.walk() == (Walk { postings: shown_postings(postings@), place: 0, begun: false }),
            r.list().term@ == Seq::<char>::empty(),
            r.list().weights@ == Seq::<u32>::empty(),
            r.list().total_frequency == 0,
            r.list().doc_frequency == postings@.len(),
            r.list().positions is Some <==> any_positions(postings@),
    {
        Self::new(postings)
    }

    /// An iterator over a decoded list.
    pub fn from_decoded_soa(decoded: DecodedPostingList) -> (r: InvertedIndexPostingIterator)
        requires
            decoded.wf(),
        ensures
            r.wf(),
            !r.begun(),
            r.list() == decoded,
            r.ahead() == decoded.postings(),
            r.costs() == posting::even_costs(decoded.doc_ids@.len(), decoded.doc_ids@.len()),
            r.walk() == (Walk { postings: decoded.postings(), place: 0, begun: false }),
    {
        Self::from_decoded_soa_arc(Arc::new(decoded))
    }

    /// An iterator over a decoded list that is shared.
    pub fn from_decoded_soa_arc(data: Arc<DecodedPostingList>) -> (r: InvertedIndexPostingIterator)
        requires
            data.wf(),
        ensures
            r.wf(),
            !r.begun(),
            r.list() == *data,
            r.ahead() == data.postings(),
            r.costs() == posting::even_costs(data.doc_ids@.len(), data.doc_ids@.len()),
            r.walk() == (Walk { postings: data.postings(), place: 0, begun: false }),
    {
        let r = InvertedIndexPostingIterator { data, position: 0, started: false };
        assert(r.ahead() =~= data.postings());
        assert(r.costs() =~= posting::even_costs(data.doc_ids@.len(), data.doc_ids@.len()));
        r
    }

    /// An iterator over a decoded list. The size of the blocks is fixed, so
    /// `_block_size` has no effect.
    pub fn from_decoded_soa_with_blocks(decoded: DecodedPostingList, _block_size: usize) -> (r:
        InvertedIndexPostingIterator)
        requires
            decoded.wf(),
        ensures
            r.wf(),
            !r.begun(),
            r.list() == decoded,
            r.ahead() == decoded.postings(),
            r.costs() == posting::even_costs(decoded.doc_ids@.len(), decoded.doc_ids@.len()),
            r.walk() == (Walk { postings: decoded.postings(), place: 0, begun: false }),
    {
        Self::from_decoded_soa(decoded)
    }

    /// Postings as parallel arrays; positions are kept where some posting has
    /// them.
    fn soa_from_aos(postings: &Vec<Posting>) -> (r: DecodedPostingList)
        ensures
            r.wf(),
            r.postings() == shown_postings(postings@),
            r.term@ == Seq::<char>::empty(),
            r.weights@ == Seq::<u32>::empty(),
            r.total_frequency == 0,
            r.doc_frequency == postings@.len(),
            r.positions is Some <==> any_positions(postings@),
    {
        let n: usize = postings.len();
        let keep: bool = has_positions(postings);
        let mut doc_ids: Vec<u32> = Vec::new();
        let mut frequencies: Vec<u32> = Vec::new();
        let mut places: Vec<Option<Vec<u32>>> = Vec::new();
        let mut i: usize = 0;
        while i < n
            invariant
                n == postings@.len(),
                i <= n,
                doc_ids@.len() == i,
                frequencies@.len() == i,
                keep ==> places@.len() == i,
                forall|k: int|
                    0 <= k < i ==> (#[trigger] doc_ids@[k]) == posting::narrowed(
                        postings@[k].doc_id,
                    ),
                forall|k: int| 0 <= k < i ==> (#[trigger] frequencies@[k]) == postings@[k].frequency,
                keep ==> forall|k: int|
                    0 <= k < i ==> posting::positions_view(#[trigger] places@[k])
                        == posting::positions_view(postings@[k].positions),
            decreases n - i,
        {
            let p: &Posting = &postings[i];
            doc_ids.push(narrow(p.doc_id));
            frequencies.push(p.frequency);
            if keep {
                places.push(posting::copy_positions(&p.positions));
            }
            i = i + 1;
        }
        let skip_levels: Vec<Vec<u32>> = posting::build_skip_levels(&doc_ids);
        let doc_frequency: u64 = doc_ids.len() as u64;
        let term: String = String::new();
        let weights: Vec<u32> = Vec::new();
        assert(term@ =~= Seq::<char>::empty());
        assert(weights@ =~= Seq::<u32>::empty());
        let positions: Option<Vec<Option<Vec<u32>>>> = if keep {
            Some(places)
        } else {
            None
        };
        let r = DecodedPostingList {
            term,
            doc_ids,
            frequencies,
            weights,
            positions,
            skip_levels,
            total_frequency: 0,
            doc_frequency,
        };
        proof {
            assert forall|k: int| 0 <= k < n implies #[trigger] r.posting(k) == shown_postings(
                postings@,
            )[k] by {
                if !keep {
                    assert(!(postings@[k].positions is Some));
                }
                assert(r.doc_ids@[k] == posting::narrowed(postings@[k].doc_id));
                assert(r.frequencies@[k] == postings@[k].frequency);
            }
            assert(r.postings() =~= shown_postings(postings@));
        }
        r
    }

    /// The first entry of a level in `lo..hi` that is at least `target`, or `hi`.
    fn first_at_least(level: &Vec<u32>, lo: usize, hi: usize, target: u32) -> (r: usize)
        requires
            lo <= hi <= level@.len(),
        ensures
            lo <= r <= hi,
            forall|j: int| lo <= j < r ==> (#[trigger] level@[j]) < target,
            r < hi ==> level@[r as int] >= target,
            r == first_from(level@, lo as int, hi as int, target),
    {
        let mut r: usize = lo;
        while r < hi
            invariant
                lo <= r <= hi <= level@.len(),
                first_from(level@, r as int, hi as int, target) == first_from(
                    level@,
                    lo as int,
                    hi as int,
                    target,
                ),
                forall|j: int| lo <= j < r ==> (#[trigger] level@[j]) < target,
            ensures
                lo <= r <= hi,
                forall|j: int| lo <= j < r ==> (#[trigger] level@[j]) < target,
                r < hi ==> level@[r as int] >= target,
                r == first_from(level@, lo as int, hi as int, target),
            decreases hi - r,
        {
            if level[r] >= target {
                break;
            }
            r = r + 1;
        }
        r
    }

    /// Whether no document from the cursor to before `end` is at least `target`.
    spec fn all_below(&self, target: u32, end: int) -> bool {
        forall|i: int|
            self.position <= i < end && i < self.data.doc_ids@.len() ==> (
            #[trigger] self.data.doc_ids@[i]) < target
    }

    /// A place that is not behind the first document from the cursor on that is
    /// at least `target`, found by walking down the skip table.
    fn skip_via_levels(&self, target: u32) -> (r: usize)
        requires
            self.wf(),
        ensures
            self.position <= r <= self.data.doc_ids@.len(),
            posting::docs_ascend(self.ahead()) ==> self.all_below(target, r as int),
            r == led_by_levels(self.data.doc_ids@, self.position as int, target),
    {
        let n: usize = self.data.doc_ids.len();
        let cursor: usize = self.position;
        if cursor >= n {
            return n;
        }
        if self.data.skip_levels.len() == 0 {
            return cursor;
        }
        let ghost table = posting::skip_levels_of(self.data.doc_ids@);
        let top: usize = self.data.skip_levels.len() - 1;
        proof {
            assert(posting::levels_view(self.data.skip_levels@).len()
                == self.data.skip_levels@.len());
            posting::lemma_skip_levels(self.data.doc_ids@, top as int);
            let entry = table[top as int][0];
            let size = posting::pow8((top + 1) as nat);
            assert((0 + 1) * size == size) by (nonlinear_arith);
        }
        let mut step: usize = SKIP_INTERVAL;
        let mut k: usize = 0;
        assert(posting::pow8(1) == 8) by {
            reveal_with_fuel(posting::pow8, 2);
        }
        while k < top
            invariant
                k <= top,
                n == self.data.doc_ids@.len(),
                step == posting::pow8((k + 1) as nat),
                posting::pow8((top + 1) as nat) <= n,
                k < top ==> step <= n,
            decreases top - k,
        {
            proof {
                lemma_pow8_grows((k + 2) as nat, (top + 1) as nat);
            }
            step = step * SKIP_INTERVAL;
            k = k + 1;
        }
        let top_level: &Vec<u32> = &self.data.skip_levels[top];
        assert(top_level@ == table[top as int]) by {
            assert(posting::levels_view(self.data.skip_levels@)[top as int]
                == self.data.skip_levels@[top as int]@);
        }
        let bucket_lo: usize = cursor / step;
        if bucket_lo >= top_level.len() {
            return cursor;
        }
        let mut bucket: usize = Self::first_at_least(top_level, bucket_lo, top_level.len(), target);
        proof {
            self.lemma_bucket(target, top as int, bucket_lo as int, bucket as int, step as int);
        }
        let mut lower: usize = bucket * step;
        let mut level: usize = top;
        let ghost goal = descended(
            self.data.doc_ids@,
            cursor as int,
            target,
            top as int,
            bucket as int,
            lower as int,
        );
        while level > 0
            invariant
                self.wf(),
                goal == descended(
                    self.data.doc_ids@,
                    cursor as int,
                    target,
                    level as int,
                    bucket as int,
                    lower as int,
                ),
                n == self.data.doc_ids@.len(),
                cursor == self.position,
                cursor < n,
                level <= top,
                top + 1 == self.data.skip_levels@.len(),
                table == posting::skip_levels_of(self.data.doc_ids@),
                table.len() == top + 1,
                step == posting::pow8((level + 1) as nat),
                lower <= n,
                bucket * step <= n,
                posting::docs_ascend(self.ahead()) ==> self.all_below(target, lower as int),
                posting::docs_ascend(self.ahead()) ==> self.all_below(target, bucket * step),
            decreases level,
        {
            level = level - 1;
            proof {
                posting::lemma_skip_levels(self.data.doc_ids@, level as int);
            }
            let ghost upper = step as int;
            step = step / SKIP_INTERVAL;
            assert(upper == 8 * step);
            let entries: &Vec<u32> = &self.data.skip_levels[level];
            assert(entries@ == table[level as int]) by {
                assert(posting::levels_view(self.data.skip_levels@)[level as int]
                    == self.data.skip_levels@[level as int]@);
            }
            proof {
                assert(bucket * 8 <= bucket * upper) by (nonlinear_arith)
                    requires
                        upper >= 8,
                        bucket >= 0,
                ;
                assert((bucket * 8) * step == bucket * upper) by (nonlinear_arith)
                    requires
                        upper == 8 * step,
                ;
            }
            let parent_lo: usize = bucket * SKIP_INTERVAL;
            let parent_hi: usize = if SKIP_INTERVAL <= entries.len() && parent_lo <= entries.len()
                - SKIP_INTERVAL {
                parent_lo + SKIP_INTERVAL
            } else {
                entries.len()
            };
            let behind: usize = cursor / step;
            let lo: usize = if behind >= parent_lo {
                behind
            } else {
                parent_lo
            };
            if lo >= parent_hi {
                if cursor > lower {
                    lower = cursor;
                }
                let next: usize = if parent_hi > 0 {
                    parent_hi - 1
                } else {
                    0
                };
                proof {
                    self.lemma_behind(
                        target,
                        behind as int,
                        parent_lo as int,
                        next as int,
                        step as int,
                        entries@.len() as int,
                    );
                }
                bucket = next;
            } else {
                bucket = Self::first_at_least(entries, lo, parent_hi, target);
                proof {
                    self.lemma_bucket_below(
                        target,
                        level as int,
                        lo as int,
                        parent_lo as int,
                        bucket as int,
                        step as int,
                    );
                }
                lower = bucket * step;
            }
        }
        if lower > cursor {
            lower
        } else {
            cursor
        }
    }

    /// What the top level says of the documents in front of a bucket.
    proof fn lemma_bucket(&self, target: u32, k: int, lo: int, bucket: int, step: int)
        requires
            self.wf(),
            0 <= k < posting::skip_levels_of(self.data.doc_ids@).len(),
            step == posting::pow8((k + 1) as nat),
            lo == self.position as int / step,
            lo <= bucket <= posting::skip_levels_of(self.data.doc_ids@)[k].len(),
            forall|j: int|
                lo <= j < bucket ==> (#[trigger] posting::skip_levels_of(
                    self.data.doc_ids@,
                )[k][j]) < target,
        ensures
            bucket * step <= self.data.doc_ids@.len(),
            posting::docs_ascend(self.ahead()) ==> self.all_below(target, bucket * step),
    {
        posting::lemma_skip_levels(self.data.doc_ids@, k);
        vstd::arithmetic::div_mod::lemma_div_pos_is_pos(self.position as int, step);
        self.lemma_bucket_below(target, k, lo, lo, bucket, step);
    }

    /// What a level says of the documents in front of a bucket.
    proof fn lemma_bucket_below(
        &self,
        target: u32,
        k: int,
        lo: int,
        parent_lo: int,
        bucket: int,
        step: int,
    )
        requires
            self.wf(),
            0 <= k < posting::skip_levels_of(self.data.doc_ids@).len(),
            step == posting::pow8((k + 1) as nat),
            0 <= parent_lo <= lo,
            lo == parent_lo || lo == self.position as int / step,
            lo == self.position as int / step || (posting::docs_ascend(self.ahead())
                ==> self.all_below(target, parent_lo * step)),
            lo <= bucket <= posting::skip_levels_of(self.data.doc_ids@)[k].len(),
            forall|j: int|
                lo <= j < bucket ==> (#[trigger] posting::skip_levels_of(
                    self.data.doc_ids@,
                )[k][j]) < target,
        ensures
            bucket * step <= self.data.doc_ids@.len(),
            posting::docs_ascend(self.ahead()) ==> self.all_below(target, bucket * step),
    {
        let ids = self.data.doc_ids@;
        let level = posting::skip_levels_of(ids)[k];
        posting::lemma_skip_levels(ids, k);
        vstd::arithmetic::div_mod::lemma_fundamental_div_mod(ids.len() as int, step);
        vstd::arithmetic::div_mod::lemma_fundamental_div_mod(self.position as int, step);
        assert(bucket * step <= level.len() * step) by (nonlinear_arith)
            requires
                bucket <= level.len(),
                step >= 0,
        ;
        assert(level.len() * step == step * level.len()) by (nonlinear_arith);
        if posting::docs_ascend(self.ahead()) {
            assert forall|i: int|
                self.position <= i < bucket * step && i < ids.len() implies (#[trigger] ids[i])
                < target by {
                if bucket > lo {
                    let j = bucket - 1;
                    assert(level[j] < target);
                    assert(level[j] == ids[(j + 1) * step - 1]);
                    let last = bucket * step - 1;
                    assert(self.ahead()[i - self.position].doc_id == ids[i]);
                    assert(self.ahead()[last - self.position].doc_id == ids[last]);
                } else if lo == self.position as int / step {
                    assert(lo * step <= self.position) by (nonlinear_arith)
                        requires
                            self.position == step * lo + self.position as int % step,
                            self.position as int % step >= 0,
                    ;
                } else {
                    assert(self.all_below(target, parent_lo * step));
                }
            }
        }
    }

    /// A bucket that lies behind the cursor, or in front of one that is known to
    /// be below the target.
    proof fn lemma_behind(
        &self,
        target: u32,
        behind: int,
        parent_lo: int,
        next: int,
        step: int,
        len: int,
    )
        requires
            self.wf(),
            step > 0,
            behind == self.position as int / step,
            parent_lo * step <= self.data.doc_ids@.len(),
            posting::docs_ascend(self.ahead()) ==> self.all_below(target, parent_lo * step),
            0 <= next,
            next <= behind || next <= parent_lo,
        ensures
            next * step <= self.data.doc_ids@.len(),
            posting::docs_ascend(self.ahead()) ==> self.all_below(target, next * step),
    {
        vstd::arithmetic::div_mod::lemma_fundamental_div_mod(self.position as int, step);
        if next <= behind {
            assert(next * step <= self.position) by (nonlinear_arith)
                requires
                    self.position == step * behind + self.position as int % step,
                    self.position as int % step >= 0,
                    next <= behind,
                    step > 0,
            ;
        } else {
            assert(next * step <= parent_lo * step) by (nonlinear_arith)
                requires
                    next <= parent_lo,
                    step > 0,
            ;
        }
    }
}

proof fn lemma_pow8_grows(a: nat, b: nat)
    requires
        a <= b,
    ensures
        posting::pow8(a) <= posting::pow8(b),
        posting::pow8(a) >= 1,
    decreases b,
{
    if b > 0 {
        if a == b {
            lemma_pow8_grows((a - 1) as nat, (b - 1) as nat);
        } else {
            lemma_pow8_grows(a, (b - 1) as nat);
        }
    }
}

/// What is left behind the postings below the target.
proof fn lemma_from_target(s: Seq<PostingView>, target: u64, k: int)
    requires
        0 <= k <= s.len(),
        forall|i: int| 0 <= i < k ==> (#[trigger] s[i]).doc_id < target,
        k < s.len() ==> s[k].doc_id >= target,
    ensures
        posting::from_target(s, target) == s.skip(k),
    decreases k,
{
    if k == 0 {
        assert(s.skip(0) =~= s);
    } else {
        assert(s[0].doc_id < target);
        let t = s.drop_first();
        assert forall|i: int| 0 <= i < k - 1 implies (#[trigger] t[i]).doc_id < target by {
            assert(t[i] == s[i + 1]);
        }
        lemma_from_target(t, target, k - 1);
        assert(t.skip(k - 1) =~= s.skip(k));
    }
}

impl PostingIterator for InvertedIndexPostingIterator {
    closed spec fn wf(&self) -> bool {
        &&& self.data.wf()
        &&& self.position <= self.data.doc_ids@.len()
    }

    closed spec fn begun(&self) -> bool {
        self.started
    }

    closed spec fn ahead(&self) -> Seq<PostingView> {
        Seq::new(
            (self.data.doc_ids@.len() - self.position) as nat,
            |i: int| self.data.posting(self.position + i),
        )
    }

    closed spec fn costs(&self) -> Seq<nat> {
        posting::even_costs(self.data.doc_ids@.len(), self.ahead().len())
    }

    open spec fn may_fail(&self, e: LaurusError) -> bool {
        false
    }

    open spec fn may_go_on(&self) -> bool {
        true
    }

    proof fn lemma_documents(&self) {
        assert forall|i: int| 0 <= i < self.ahead().len() implies (
        #[trigger] self.ahead()[i]).doc_id < u64::MAX by {
            assert(self.ahead()[i].doc_id == self.data.doc_ids@[self.position + i]);
        }
    }

    fn doc_id(&self) -> (r: u64) {
        if self.position < self.data.doc_ids.len() {
            self.data.doc_ids[self.position] as u64
        } else {
            u64::MAX
        }
    }

    fn term_freq(&self) -> (r: u64) {
        if self.position < self.data.frequencies.len() {
            self.data.frequencies[self.position] as u64
        } else {
            0
        }
    }

    fn positions(&self) -> (r: Result<Vec<u64>, LaurusError>) {
        let mut r: Vec<u64> = Vec::new();
        assert(r@ =~= Seq::empty());
        if self.position >= self.data.doc_ids.len() {
            return Ok(r);
        }
        match &self.data.positions {
            Some(per_doc) => match &per_doc[self.position] {
                Some(p) => {
                    let mut i: usize = 0;
                    assert(p@.take(0) =~= Seq::empty());
                    while i < p.len()
                        invariant
                            i <= p@.len(),
                            r@ == posting::widened(p@.take(i as int)),
                        decreases p@.len() - i,
                    {
                        r.push(p[i] as u64);
                        i = i + 1;
                        assert(r@ =~= posting::widened(p@.take(i as int)));
                    }
                    assert(p@.take(p@.len() as int) =~= p@);
                    Ok(r)
                },
                None => Ok(r),
            },
            None => Ok(r),
        }
    }

    fn next(&mut self) -> (r: Result<bool, LaurusError>)
        ensures
            final(self).walk() == old(self).walk().stepped(),
            final(self).costs()[0] == old(self).costs()[0],
    {
        let n: usize = self.data.doc_ids.len();
        if n == 0 {
            assert(self.ahead() =~= posting::behind_first(self.ahead()));
            return Ok(false);
        }
        let ghost before = self.ahead();
        if !self.started {
            self.started = true;
            assert(self.ahead() =~= before);
        } else if self.position < n {
            self.position = self.position + 1;
            assert(self.ahead() =~= before.drop_first());
            assert(self.costs() =~= posting::costs_behind_first(old(self).costs()));
        }
        Ok(self.position < n)
    }

    fn skip_to(&mut self, target: u64) -> (r: Result<bool, LaurusError>)
        ensures
            final(self).walk() == old(self).walk().skipped(target),
            final(self).costs()[0] == old(self).costs()[0],
    {
        let ghost first = self.position as int;
        let ghost before = self.ahead();
        let ghost ids = self.data.doc_ids@;
        self.started = true;
        assert(self.ahead() =~= before);
        assert(kept_ids(self.data.postings()) =~= ids);
        assert(self.costs().skip(0) =~= self.costs());
        let n: usize = self.data.doc_ids.len();
        if n == 0 {
            assert(posting::from_target(before, target) =~= self.ahead());
            assert(self.ahead() =~= before.subrange(0, before.len() as int));
            return Ok(false);
        }
        if target > u32::MAX as u64 {
            self.position = n;
            proof {
                assert forall|i: int| 0 <= i < before.len() implies (#[trigger] before[i]).doc_id
                    < target by {
                    assert(before[i].doc_id == ids[first + i]);
                }
                lemma_from_target(before, target, before.len() as int);
                assert(self.costs() =~= old(self).costs().skip(before.len() as int));
                assert(self.ahead() =~= before.skip(before.len() as int));
                assert(self.ahead() =~= before.subrange(before.len() as int, before.len() as int));
            }
            return Ok(false);
        }
        let target_u32: u32 = target as u32;
        let at: usize = self.skip_via_levels(target_u32);
        let ghost sorted = posting::docs_ascend(before);
        proof {
            if sorted {
                assert(self.all_below(target_u32, at as int));
                assert forall|i: int| first <= i < at implies (#[trigger] ids[i]) < target_u32 by {}
            }
        }
        self.position = at;
        while self.position < n
            invariant
                n == self.data.doc_ids@.len(),
                self.data.doc_ids@ == ids,
                self.data.wf(),
                self.data == old(self).data,
                self.started,
                target == target_u32,
                first <= self.position <= n,
                first_from(ids, self.position as int, n as int, target_u32) == first_from(
                    ids,
                    at as int,
                    n as int,
                    target_u32,
                ),
                sorted ==> forall|i: int|
                    first <= i < self.position ==> (#[trigger] ids[i]) < target_u32,
            ensures
                self.position == first_from(ids, at as int, n as int, target_u32),
                self.position < n ==> ids[self.position as int] >= target_u32,
                first <= self.position <= n,
                self.data == old(self).data,
                self.started,
                sorted ==> forall|i: int|
                    first <= i < self.position ==> (#[trigger] ids[i]) < target_u32,
            decreases n - self.position,
        {
            if self.data.doc_ids[self.position] >= target_u32 {
                break;
            }
            self.position = self.position + 1;
        }
        proof {
            let k = self.position - first;
            assert(self.ahead() =~= before.skip(k));
            assert(self.costs() =~= old(self).costs().skip(k));
            assert(self.ahead() =~= before.subrange(
                before.len() - self.ahead().len(),
                before.len() as int,
            ));
            if sorted {
                assert forall|i: int| 0 <= i < k implies (#[trigger] before[i]).doc_id < target by {
                    assert(before[i].doc_id == ids[first + i]);
                }
                if k < before.len() {
                    assert(before[k].doc_id == ids[first + k]);
                }
                lemma_from_target(before, target, k);
            }
            if self.ahead().len() > 0 {
                assert(self.ahead()[0].doc_id == ids[self.position as int]);
            }
        }
        Ok(self.position < n)
    }

    fn cost(&self) -> (r: u64) {
        self.data.doc_ids.len() as u64
    }
}

// ---------------------------------------------------------------------------
// Several segments
// ---------------------------------------------------------------------------

/// The first of the least documents in front of the first `n` streams.
pub open spec fn least_head(ws: Seq<Seq<PostingView>>, n: int) -> int
    decreases n,
{
    if n <= 1 {
        0
    } else {
        let m = least_head(ws, n - 1);
        if ws[n - 1][0].doc_id < ws[m][0].doc_id {
            n - 1
        } else {
            m
        }
    }
}

/// The streams after stream `m` has gone on; one that has ended gives its place
/// to the last.
pub open spec fn after_step(ws: Seq<Seq<PostingView>>, m: int) -> Seq<Seq<PostingView>> {
    if ws[m].len() > 1 {
        ws.update(m, ws[m].drop_first())
    } else {
        ws.update(m, ws.last()).drop_last()
    }
}

/// How many postings the streams have.
pub open spec fn stream_total(ws: Seq<Seq<PostingView>>) -> nat
    decreases ws.len(),
{
    if ws.len() == 0 {
        0
    } else {
        stream_total(ws.drop_last()) + ws.last().len()
    }
}

/// How often a posting occurs in the streams.
pub open spec fn stream_count(ws: Seq<Seq<PostingView>>, p: PostingView) -> nat
    decreases ws.len(),
{
    if ws.len() == 0 {
        0
    } else {
        stream_count(ws.drop_last(), p) + ws.last().to_multiset().count(p)
    }
}

/// One stream of all postings: always the least of the documents in front of the
/// streams.
pub open spec fn merged(ws: Seq<Seq<PostingView>>) -> Seq<PostingView>
    decreases stream_total(ws),
{
    let m = least_head(ws, ws.len() as int);
    if ws.len() == 0 || ws[m].len() == 0 {
        Seq::empty()
    } else {
        proof {
            lemma_least_head(ws, ws.len() as int);
            lemma_after_step(ws, m);
        }
        seq![ws[m][0]] + merged(after_step(ws, m))
    }
}

/// The least head is one of the streams, and no other is less.
pub proof fn lemma_least_head(ws: Seq<Seq<PostingView>>, n: int)
    requires
        0 < n <= ws.len(),
    ensures
        0 <= least_head(ws, n) < n,
        forall|i: int|
            0 <= i < n ==> ws[least_head(ws, n)][0].doc_id <= (#[trigger] ws[i])[0].doc_id,
    decreases n,
{
    if n > 1 {
        lemma_least_head(ws, n - 1);
    }
}

proof fn lemma_total_update(ws: Seq<Seq<PostingView>>, m: int, v: Seq<PostingView>)
    requires
        0 <= m < ws.len(),
    ensures
        stream_total(ws.update(m, v)) == stream_total(ws) - ws[m].len() + v.len(),
        forall|p: PostingView| #[trigger]
            stream_count(ws.update(m, v), p) == stream_count(ws, p) - ws[m].to_multiset().count(p)
                + v.to_multiset().count(p),
    decreases ws.len(),
{
    let u = ws.update(m, v);
    if m < ws.len() - 1 {
        lemma_total_update(ws.drop_last(), m, v);
        assert(u.drop_last() =~= ws.drop_last().update(m, v));
        assert forall|p: PostingView| #[trigger] stream_count(u, p) == stream_count(ws, p)
            - ws[m].to_multiset().count(p) + v.to_multiset().count(p) by {
            assert(stream_count(ws.drop_last().update(m, v), p) == stream_count(ws.drop_last(), p)
                - ws[m].to_multiset().count(p) + v.to_multiset().count(p));
        }
    } else {
        assert(u.drop_last() =~= ws.drop_last());
    }
}

/// A step takes one posting from the streams.
pub proof fn lemma_after_step(ws: Seq<Seq<PostingView>>, m: int)
    requires
        0 <= m < ws.len(),
        ws[m].len() > 0,
    ensures
        stream_total(after_step(ws, m)) == stream_total(ws) - 1,
        forall|p: PostingView| #[trigger]
            stream_count(after_step(ws, m), p) == stream_count(ws, p) - (if p == ws[m][0] {
                1int
            } else {
                0
            }),
{
    broadcast use group_to_multiset_ensures;

    let first = ws[m][0];
    let rest = ws[m].drop_first();
    assert(ws[m] =~= seq![first] + rest);
    assert(rest.to_multiset() =~= ws[m].to_multiset().remove(first)) by {
        assert(ws[m].remove(0) =~= rest);
    }
    if ws[m].len() > 1 {
        lemma_total_update(ws, m, rest);
    } else {
        assert(rest =~= Seq::empty());
        lemma_total_update(ws, m, ws.last());
        let u = ws.update(m, ws.last());
        assert(u.last() == ws.last());
    }
    assert(ws[m].to_multiset().count(first) >= 1);
    assert forall|p: PostingView| #[trigger] stream_count(after_step(ws, m), p) == stream_count(
        ws,
        p,
    ) - (if p == first {
        1int
    } else {
        0
    }) by {
        assert(rest.to_multiset().count(p) == ws[m].to_multiset().count(p) - (if p == first {
            1int
        } else {
            0
        }));
        let u = ws.update(m, ws.last());
        assert(stream_count(u, p) == stream_count(u.drop_last(), p) + u.last().to_multiset().count(
            p,
        ));
    }
}

/// Whether no stream has ended.
pub open spec fn streams_open(ws: Seq<Seq<PostingView>>) -> bool {
    forall|i: int| 0 <= i < ws.len() ==> (#[trigger] ws[i]).len() > 0
}

/// Whether the documents of every stream ascend.
pub open spec fn streams_ascend(ws: Seq<Seq<PostingView>>) -> bool {
    forall|i: int| 0 <= i < ws.len() ==> posting::docs_ascend(#[trigger] ws[i])
}

/// The costs of the streams after stream `m` of `ws` has gone on.
pub open spec fn costs_after_step(
    ws: Seq<Seq<PostingView>>,
    cs: Seq<Seq<nat>>,
    m: int,
) -> Seq<Seq<nat>> {
    if ws[m].len() > 1 {
        cs.update(m, cs[m].drop_first())
    } else {
        cs.update(m, cs.last()).drop_last()
    }
}

/// What streams cost now, all together.
pub open spec fn cost_sum(cs: Seq<Seq<nat>>) -> nat
    decreases cs.len(),
{
    if cs.len() == 0 {
        0
    } else {
        cost_sum(cs.drop_last()) + cs.last()[0]
    }
}

/// The costs of the merged stream: of all streams that have not ended.
pub open spec fn merged_costs(ws: Seq<Seq<PostingView>>, cs: Seq<Seq<nat>>) -> Seq<nat>
    decreases stream_total(ws),
{
    let m = least_head(ws, ws.len() as int);
    if ws.len() == 0 || ws[m].len() == 0 {
        seq![cost_sum(cs)]
    } else {
        proof {
            lemma_least_head(ws, ws.len() as int);
            lemma_after_step(ws, m);
        }
        seq![cost_sum(cs)] + merged_costs(after_step(ws, m), costs_after_step(ws, cs, m))
    }
}

/// The merged stream has a cost for each posting and one for the end.
pub proof fn lemma_merged_costs(ws: Seq<Seq<PostingView>>, cs: Seq<Seq<nat>>)
    ensures
        merged_costs(ws, cs).len() == merged(ws).len() + 1,
        merged_costs(ws, cs)[0] == cost_sum(cs),
    decreases stream_total(ws),
{
    let m = least_head(ws, ws.len() as int);
    if ws.len() > 0 && ws[m].len() > 0 {
        lemma_least_head(ws, ws.len() as int);
        lemma_after_step(ws, m);
        lemma_merged_costs(after_step(ws, m), costs_after_step(ws, cs, m));
    }
}

/// The merged stream holds every posting of the streams, each as often as they
/// do.
pub proof fn lemma_merged_holds(ws: Seq<Seq<PostingView>>)
    requires
        streams_open(ws),
    ensures
        forall|p: PostingView|
            (#[trigger] merged(ws).to_multiset().count(p)) == stream_count(ws, p),
    decreases stream_total(ws),
{
    broadcast use group_to_multiset_ensures;

    if ws.len() > 0 {
        let m = least_head(ws, ws.len() as int);
        lemma_least_head(ws, ws.len() as int);
        lemma_after_step(ws, m);
        let next = after_step(ws, m);
        assert(streams_open(next));
        lemma_merged_holds(next);
        let first = ws[m][0];
        assert(merged(ws) =~= seq![first] + merged(next));
        lemma_multiset_commutative(seq![first], merged(next));
        assert(seq![first].to_multiset() =~= Multiset::singleton(first)) by {
            assert(Seq::<PostingView>::empty().push(first) =~= seq![first]);
        }
        assert forall|p: PostingView| (#[trigger] merged(ws).to_multiset().count(p))
            == stream_count(ws, p) by {
            assert(merged(next).to_multiset().count(p) == stream_count(next, p));
        }
    } else {
        assert(merged(ws) =~= Seq::empty());
    }
}

/// The merged stream has as many postings as the streams.
pub proof fn lemma_merged_len(ws: Seq<Seq<PostingView>>)
    requires
        streams_open(ws),
    ensures
        merged(ws).len() == stream_total(ws),
    decreases stream_total(ws),
{
    if ws.len() > 0 {
        let m = least_head(ws, ws.len() as int);
        lemma_least_head(ws, ws.len() as int);
        lemma_after_step(ws, m);
        assert(streams_open(after_step(ws, m)));
        lemma_merged_len(after_step(ws, m));
    }
}

/// The costs of streams that have all their postings ahead: each costs as many postings
/// as it has.
pub open spec fn costs_each(ws: Seq<Seq<PostingView>>) -> Seq<Seq<nat>> {
    ws.map_values(|w: Seq<PostingView>| posting::even_costs(w.len(), w.len()))
}

/// Streams that have all their postings ahead cost as many postings as they have.
pub proof fn lemma_cost_of_each(ws: Seq<Seq<PostingView>>)
    ensures
        cost_sum(costs_each(ws)) == stream_total(ws),
    decreases ws.len(),
{
    if ws.len() > 0 {
        lemma_cost_of_each(ws.drop_last());
        assert(costs_each(ws).drop_last() =~= costs_each(ws.drop_last()));
    }
}

/// No document of the merged stream is less than what is in front of the
/// streams.
proof fn lemma_merged_from(ws: Seq<Seq<PostingView>>, low: u64)
    requires
        streams_open(ws),
        streams_ascend(ws),
        forall|i: int| 0 <= i < ws.len() ==> low <= (#[trigger] ws[i])[0].doc_id,
    ensures
        posting::docs_ascend(merged(ws)),
        forall|k: int| 0 <= k < merged(ws).len() ==> low <= (#[trigger] merged(ws)[k]).doc_id,
    decreases stream_total(ws),
{
    if ws.len() > 0 {
        let m = least_head(ws, ws.len() as int);
        lemma_least_head(ws, ws.len() as int);
        lemma_after_step(ws, m);
        let next = after_step(ws, m);
        let first = ws[m][0];
        assert forall|i: int| 0 <= i < next.len() implies first.doc_id <= (
        #[trigger] next[i])[0].doc_id && next[i].len() > 0 && posting::docs_ascend(next[i]) by {
            if ws[m].len() > 1 && i == m {
                assert(posting::docs_ascend(ws[m]));
                assert(next[i][0] == ws[m][1]);
                assert(posting::docs_ascend(next[i]));
            } else if ws[m].len() > 1 {
                assert(next[i] == ws[i]);
            } else if i == m {
                assert(next[i] == ws[ws.len() - 1]);
            } else {
                assert(next[i] == ws[i]);
            }
        }
        lemma_merged_from(next, first.doc_id);
        let all = merged(ws);
        assert forall|k: int| 0 <= k < all.len() implies first.doc_id <= (
        #[trigger] all[k]).doc_id by {
            if k > 0 {
                assert(all[k] == merged(next)[k - 1]);
            }
        }
        assert forall|i: int, j: int| 0 <= i < j < all.len() implies (#[trigger] all[i]).doc_id
            <= (#[trigger] all[j]).doc_id by {
            assert(all[j] == merged(next)[j - 1]);
            if i > 0 {
                assert(all[i] == merged(next)[i - 1]);
            }
        }
        assert(low <= ws[m][0].doc_id);
    }
}

/// The documents of the merged stream ascend where those of the streams do.
pub proof fn lemma_merged_ascends(ws: Seq<Seq<PostingView>>)
    requires
        streams_open(ws),
        streams_ascend(ws),
    ensures
        posting::docs_ascend(merged(ws)),
{
    lemma_merged_from(ws, 0);
}

/// An iterator with the document that it stands at.
#[derive(Debug)]
struct IteratorWrapper<I> {
    iter: I,
    current_doc: u64,
}

/// The postings ahead of each iterator.
spec fn streams_of<I: PostingIterator>(wrappers: Seq<IteratorWrapper<I>>) -> Seq<Seq<PostingView>> {
    wrappers.map_values(|w: IteratorWrapper<I>| w.iter.ahead())
}

/// The costs of each iterator.
spec fn costs_of<I: PostingIterator>(wrappers: Seq<IteratorWrapper<I>>) -> Seq<Seq<nat>> {
    wrappers.map_values(|w: IteratorWrapper<I>| w.iter.costs())
}

/// Whether a call of one of the iterators may fail for this reason.
spec fn some_may_fail<I: PostingIterator>(wrappers: Seq<IteratorWrapper<I>>, e: LaurusError) -> bool {
    exists|i: int| 0 <= i < wrappers.len() && (#[trigger] wrappers[i]).iter.may_fail(e)
}

/// Whether every iterator stands at a posting.
spec fn wrappers_wf<I: PostingIterator>(wrappers: Seq<IteratorWrapper<I>>) -> bool {
    forall|i: int|
        0 <= i < wrappers.len() ==> wrapper_wf(#[trigger] wrappers[i])
}

spec fn wrapper_wf<I: PostingIterator>(w: IteratorWrapper<I>) -> bool {
    &&& w.iter.wf()
    &&& w.iter.begun()
    &&& w.iter.ahead().len() > 0
    &&& w.current_doc == w.iter.ahead()[0].doc_id
}

/// The first of the iterators that stand at the least document.
fn find_min_idx<I: PostingIterator>(wrappers: &Vec<IteratorWrapper<I>>) -> (r: usize)
    requires
        wrappers@.len() > 0,
        wrappers_wf(wrappers@),
    ensures
        r < wrappers@.len(),
        r == least_head(streams_of(wrappers@), wrappers@.len() as int),
{
    let ghost ws = streams_of(wrappers@);
    let mut min_idx: usize = 0;
    let mut i: usize = 1;
    assert(wrapper_wf(wrappers@[0]));
    while i < wrappers.len()
        invariant
            1 <= i <= wrappers@.len(),
            wrappers_wf(wrappers@),
            ws == streams_of(wrappers@),
            min_idx < i,
            min_idx == least_head(ws, i as int),
        decreases wrappers@.len() - i,
    {
        assert(wrapper_wf(wrappers@[i as int]));
        assert(wrapper_wf(wrappers@[min_idx as int]));
        if wrappers[i].current_doc < wrappers[min_idx].current_doc {
            min_idx = i;
        }
        i = i + 1;
    }
    min_idx
}

/// Walks over the posting lists of several segments as one list.
#[derive(Debug)]
pub struct MergedPostingIterator<I> {
    wrappers: Vec<IteratorWrapper<I>>,
    min_idx: usize,
    current_doc: u64,
    started: bool,
}

/// What an iterator shows after it was asked for its next posting.
pub open spec fn opened<I: PostingIterator>(it: I) -> Seq<PostingView> {
    if it.begun() {
        posting::behind_first(it.ahead())
    } else {
        it.ahead()
    }
}

/// The streams that iterators open, without those that have no posting.
pub open spec fn opened_streams<I: PostingIterator>(its: Seq<I>) -> Seq<Seq<PostingView>>
    decreases its.len(),
{
    if its.len() == 0 {
        Seq::empty()
    } else {
        let front = opened_streams(its.drop_last());
        if opened(its.last()).len() > 0 {
            front.push(opened(its.last()))
        } else {
            front
        }
    }
}

/// The costs of an iterator after it was asked for its next posting.
pub open spec fn costs_opened<I: PostingIterator>(it: I) -> Seq<nat> {
    if it.begun() {
        posting::costs_behind_first(it.costs())
    } else {
        it.costs()
    }
}

/// The costs of the streams that iterators open, without those that have no posting.
pub open spec fn opened_costs<I: PostingIterator>(its: Seq<I>) -> Seq<Seq<nat>>
    decreases its.len(),
{
    if its.len() == 0 {
        Seq::empty()
    } else {
        let front = opened_costs(its.drop_last());
        if opened(its.last()).len() > 0 {
            front.push(costs_opened(its.last()))
        } else {
            front
        }
    }
}

/// Whether a call of one of the iterators may fail for this reason.
pub open spec fn iterators_may_fail<I: PostingIterator>(its: Seq<I>, e: LaurusError) -> bool {
    exists|i: int| 0 <= i < its.len() && (#[trigger] its[i]).may_fail(e)
}

/// Whether opening the iterators in turn may fail for this reason: an iterator may fail
/// for it, and those before it may be opened.
pub open spec fn opening_may_fail<I: PostingIterator>(its: Seq<I>, e: LaurusError) -> bool {
    exists|i: int|
        0 <= i < its.len() && (#[trigger] its[i]).may_fail(e) && all_may_go_on(its.take(i))
}

/// Whether the next step of each of the iterators may be taken without a failure.
pub open spec fn all_may_go_on<I: PostingIterator>(its: Seq<I>) -> bool {
    forall|i: int| 0 <= i < its.len() ==> (#[trigger] its[i]).may_go_on()
}

impl<I: PostingIterator> MergedPostingIterator<I> {
    /// Merges iterators. Each goes on to its first posting, in their order; the first
    /// that cannot ends it.
    pub fn new(iterators: Vec<I>) -> (r: Result<MergedPostingIterator<I>, LaurusError>)
        requires
            forall|i: int| 0 <= i < iterators@.len() ==> (#[trigger] iterators@[i]).wf(),
        ensures
            match r {
                Ok(it) => {
                    &&& all_may_go_on(iterators@)
                    &&& it.wf()
                    &&& !it.begun()
                    &&& it.ahead() == merged(opened_streams(iterators@))
                    &&& it.costs() == merged_costs(
                        opened_streams(iterators@),
                        opened_costs(iterators@),
                    )
                    &&& forall|e: LaurusError| #[trigger]
                        it.may_fail(e) ==> iterators_may_fail(iterators@, e)
                },
                Err(e) => opening_may_fail(iterators@, e),
            },
    {
        let ghost its = iterators@;
        let mut wrappers: Vec<IteratorWrapper<I>> = Vec::new();
        let mut rest: Vec<I> = iterators;
        let mut left: Vec<I> = Vec::new();
        let n: usize = rest.len();
        let mut k: usize = 0;
        while k < n
            invariant
                n == its.len(),
                k <= n,
                rest@ == its.take(n - k),
                left@ == its.skip(n - k).reverse(),
            decreases n - k,
        {
            match rest.pop() {
                Some(it) => {
                    left.push(it);
                    proof {
                        assert(rest@ =~= its.take(n - k - 1));
                        assert(left@ =~= its.skip(n - k - 1).reverse());
                    }
                },
                None => {},
            }
            k = k + 1;
        }
        assert(left@ =~= its.reverse());
        let mut i: usize = 0;
        assert(its.take(0) =~= Seq::empty());
        assert(streams_of(wrappers@) =~= opened_streams(its.take(0)));
        assert(costs_of(wrappers@) =~= opened_costs(its.take(0)));
        while i < n
            invariant
                its == iterators@,
                n == its.len(),
                i <= n,
                forall|j: int| 0 <= j < its.len() ==> (#[trigger] its[j]).wf(),
                left@ == its.skip(i as int).reverse(),
                wrappers_wf(wrappers@),
                streams_of(wrappers@) == opened_streams(its.take(i as int)),
                costs_of(wrappers@) == opened_costs(its.take(i as int)),
                all_may_go_on(its.take(i as int)),
                forall|e: LaurusError| #[trigger]
                    some_may_fail(wrappers@, e) ==> iterators_may_fail(its, e),
            decreases n - i,
        {
            let ghost before = wrappers@;
            assert(its.take(i + 1).drop_last() =~= its.take(i as int));
            assert(its.take(i + 1).last() == its[i as int]);
            match left.pop() {
                Some(it) => {
                    assert(it == its[i as int]);
                    assert(left@ =~= its.skip(i + 1).reverse());
                    let mut iter: I = it;
                    match iter.next() {
                        Ok(more) => {
                            proof {
                                assert(its[i as int].may_go_on());
                                assert forall|j: int|
                                    0 <= j < its.take(i + 1).len() implies (
                                #[trigger] its.take(i + 1)[j]).may_go_on() by {
                                    if j < i {
                                        assert(its.take(i as int)[j].may_go_on());
                                    }
                                }
                            }
                            if more {
                                let current_doc: u64 = iter.doc_id();
                                let ghost w = IteratorWrapper { iter, current_doc };
                                wrappers.push(IteratorWrapper { iter, current_doc });
                                proof {
                                    assert(wrapper_wf(w));
                                    assert(wrappers@ =~= before.push(w));
                                    assert forall|j: int|
                                        0 <= j < wrappers@.len() implies wrapper_wf(
                                        #[trigger] wrappers@[j],
                                    ) by {
                                        if j < before.len() {
                                            assert(wrapper_wf(before[j]));
                                        }
                                    }
                                    assert(wrappers@.drop_last() =~= before);
                                    assert(streams_of(wrappers@) =~= streams_of(before).push(
                                        w.iter.ahead(),
                                    ));
                                    assert(costs_of(wrappers@) =~= costs_of(before).push(
                                        w.iter.costs(),
                                    ));
                                    assert forall|e: LaurusError| #[trigger]
                                        some_may_fail(wrappers@, e) implies iterators_may_fail(
                                        its,
                                        e,
                                    ) by {
                                        let j = choose|j: int|
                                            0 <= j < wrappers@.len() && (
                                            #[trigger] wrappers@[j]).iter.may_fail(e);
                                        if j < before.len() {
                                            assert(before[j].iter.may_fail(e));
                                            assert(some_may_fail(before, e));
                                        } else {
                                            assert(its[i as int].may_fail(e));
                                        }
                                    }
                                }
                            }
                        },
                        Err(e) => {
                            assert(its[i as int].may_fail(e));
                            assert(opening_may_fail(its, e));
                            return Err(e);
                        },
                    }
                },
                None => {},
            }
            i = i + 1;
        }
        assert(its.take(n as int) =~= its);
        let min_idx: usize = if wrappers.len() == 0 {
            0
        } else {
            find_min_idx(&wrappers)
        };
        let current_doc: u64 = if wrappers.len() == 0 {
            u64::MAX
        } else {
            wrappers[min_idx].current_doc
        };
        let r = MergedPostingIterator { wrappers, min_idx, current_doc, started: false };
        proof {
            r.lemma_front();
        }
        Ok(r)
    }

    /// What the iterator in front shows is the first merged posting.
    proof fn lemma_front(&self)
        requires
            wrappers_wf(self.wrappers@),
            self.wrappers@.len() > 0 ==> self.min_idx == least_head(
                streams_of(self.wrappers@),
                self.wrappers@.len() as int,
            ),
            self.current_doc == (if self.wrappers@.len() > 0 {
                self.wrappers@[self.min_idx as int].current_doc
            } else {
                u64::MAX
            }),
        ensures
            self.wf(),
            streams_open(streams_of(self.wrappers@)),
            (self.wrappers@.len() == 0) == (self.ahead().len() == 0),
            self.costs().len() == self.ahead().len() + 1,
            self.costs()[0] == cost_sum(costs_of(self.wrappers@)),
            self.wrappers@.len() > 0 ==> {
                &&& self.min_idx < self.wrappers@.len()
                &&& wrapper_wf(self.wrappers@[self.min_idx as int])
                &&& self.ahead()[0] == self.wrappers@[self.min_idx as int].iter.ahead()[0]
                &&& self.ahead().drop_first() == merged(
                    after_step(streams_of(self.wrappers@), self.min_idx as int),
                )
                &&& self.costs().drop_first() == merged_costs(
                    after_step(streams_of(self.wrappers@), self.min_idx as int),
                    costs_after_step(
                        streams_of(self.wrappers@),
                        costs_of(self.wrappers@),
                        self.min_idx as int,
                    ),
                )
            },
    {
        let ws = streams_of(self.wrappers@);
        assert forall|i: int| 0 <= i < ws.len() implies (#[trigger] ws[i]).len() > 0 by {
            assert(wrapper_wf(self.wrappers@[i]));
        }
        let cs = costs_of(self.wrappers@);
        lemma_merged_costs(ws, cs);
        if ws.len() > 0 {
            let m = least_head(ws, ws.len() as int);
            lemma_least_head(ws, ws.len() as int);
            assert(wrapper_wf(self.wrappers@[m]));
            assert(merged(ws).drop_first() =~= merged(after_step(ws, m)));
            assert(merged_costs(ws, cs).drop_first() =~= merged_costs(
                after_step(ws, m),
                costs_after_step(ws, cs, m),
            ));
        }
    }

    /// Whether the next step of the iterator in front may be taken without a failure.
    spec fn front_may_go_on(&self) -> bool {
        self.wrappers@.len() > 0 ==> self.wrappers@[self.min_idx as int].iter.may_go_on()
    }

    /// Goes on to the next posting.
    #[verifier::rlimit(30)]
    fn advance(&mut self) -> (r: Result<bool, LaurusError>)
        requires
            old(self).wf(),
        ensures
            match r {
                Ok(more) => {
                    &&& old(self).front_may_go_on()
                    &&& final(self).wf()
                    &&& final(self).started == old(self).started
                    &&& final(self).ahead() == posting::behind_first(old(self).ahead())
                    &&& final(self).costs() == posting::costs_behind_first(old(self).costs())
                    &&& more == (final(self).ahead().len() > 0)
                    &&& forall|e: LaurusError| #[trigger]
                        final(self).may_fail(e) ==> old(self).may_fail(e)
                },
                Err(e) => old(self).may_fail(e),
            },
    {
        proof {
            self.lemma_front();
        }
        if self.wrappers.len() == 0 {
            self.current_doc = u64::MAX;
            return Ok(false);
        }
        let idx: usize = self.min_idx;
        let ghost before = self.wrappers@;
        let ghost w0 = before[idx as int];
        let ghost ws = streams_of(before);
        let ghost cs = costs_of(before);
        assert(wrapper_wf(w0));
        proof {
            w0.iter.lemma_documents();
        }
        let more: bool = match self.wrappers[idx].iter.next() {
            Ok(v) => v,
            Err(e) => {
                assert(before[idx as int].iter.may_fail(e));
                return Err(e);
            },
        };
        if more {
            let doc: u64 = self.wrappers[idx].iter.doc_id();
            self.wrappers[idx].current_doc = doc;
            proof {
                let w1 = self.wrappers@[idx as int];
                assert(self.wrappers@ =~= before.update(idx as int, w1));
                assert(costs_of(self.wrappers@) =~= costs_after_step(ws, cs, idx as int));
                assert forall|e: LaurusError| #[trigger] self.may_fail(e) implies old(self).may_fail(
                    e,
                ) by {
                    let i = choose|i: int|
                        0 <= i < self.wrappers@.len() && (
                        #[trigger] self.wrappers@[i]).iter.may_fail(e);
                    assert(before[i].iter.may_fail(e));
                }
                assert(streams_of(self.wrappers@) =~= ws.update(idx as int, w1.iter.ahead()));
                assert(w1.iter.ahead() =~= ws[idx as int].drop_first());
                assert(streams_of(self.wrappers@) =~= after_step(ws, idx as int));
                assert forall|i: int| 0 <= i < self.wrappers@.len() implies wrapper_wf(
                    #[trigger] self.wrappers@[i],
                ) by {
                    if i != idx {
                        assert(wrapper_wf(before[i]));
                    }
                }
            }
        } else {
            let ghost stepped = self.wrappers@;
            let ghost w1 = stepped[idx as int];
            self.wrappers.swap_remove(idx);
            proof {
                assert(stepped =~= before.update(idx as int, w1));
                let last = stepped.last();
                assert(self.wrappers@ =~= stepped.update(idx as int, last).drop_last());
                assert(stepped.update(idx as int, last).last() == last);
                assert(costs_of(self.wrappers@) =~= costs_after_step(ws, cs, idx as int));
                assert forall|e: LaurusError| #[trigger] self.may_fail(e) implies old(self).may_fail(
                    e,
                ) by {
                    let i = choose|i: int|
                        0 <= i < self.wrappers@.len() && (
                        #[trigger] self.wrappers@[i]).iter.may_fail(e);
                    if i == idx {
                        assert(before[before.len() - 1].iter.may_fail(e));
                    } else {
                        assert(before[i].iter.may_fail(e));
                    }
                }
                assert(ws[idx as int].len() == 1);
                assert(streams_of(self.wrappers@) =~= ws.update(idx as int, ws.last()).drop_last());
                assert forall|i: int| 0 <= i < self.wrappers@.len() implies wrapper_wf(
                    #[trigger] self.wrappers@[i],
                ) by {
                    if i != idx {
                        assert(wrapper_wf(before[i]));
                    } else {
                        assert(wrapper_wf(before[before.len() - 1]));
                    }
                }
            }
        }
        if self.wrappers.len() == 0 {
            self.current_doc = u64::MAX;
            proof {
                self.lemma_front();
            }
            Ok(false)
        } else {
            let idx2: usize = find_min_idx(&self.wrappers);
            self.min_idx = idx2;
            self.current_doc = self.wrappers[idx2].current_doc;
            proof {
                self.lemma_front();
            }
            Ok(true)
        }
    }
}

impl<I: PostingIterator> PostingIterator for MergedPostingIterator<I> {
    closed spec fn wf(&self) -> bool {
        &&& wrappers_wf(self.wrappers@)
        &&& self.wrappers@.len() > 0 ==> self.min_idx == least_head(
            streams_of(self.wrappers@),
            self.wrappers@.len() as int,
        )
        &&& self.current_doc == (if self.wrappers@.len() > 0 {
            self.wrappers@[self.min_idx as int].current_doc
        } else {
            u64::MAX
        })
    }

    closed spec fn begun(&self) -> bool {
        self.started
    }

    closed spec fn ahead(&self) -> Seq<PostingView> {
        merged(streams_of(self.wrappers@))
    }

    closed spec fn costs(&self) -> Seq<nat> {
        merged_costs(streams_of(self.wrappers@), costs_of(self.wrappers@))
    }

    closed spec fn may_fail(&self, e: LaurusError) -> bool {
        some_may_fail(self.wrappers@, e)
    }

    closed spec fn may_go_on(&self) -> bool {
        !self.started || self.front_may_go_on()
    }

    proof fn lemma_documents(&self) {
        lemma_merged_costs(streams_of(self.wrappers@), costs_of(self.wrappers@));
        let ws = streams_of(self.wrappers@);
        assert forall|i: int| 0 <= i < ws.len() implies (#[trigger] ws[i]).len() > 0 by {
            assert(wrapper_wf(self.wrappers@[i]));
        }
        lemma_merged_holds(ws);
        assert forall|i: int| 0 <= i < self.ahead().len() implies (
        #[trigger] self.ahead()[i]).doc_id < u64::MAX by {
            broadcast use group_to_multiset_ensures;

            let p = self.ahead()[i];
            assert(self.ahead().contains(p));
            assert(merged(ws).to_multiset().count(p) > 0);
            assert(stream_count(ws, p) > 0);
            lemma_count_from(ws, p);
            let k = choose|k: int| 0 <= k < ws.len() && (#[trigger] ws[k]).contains(p);
            assert(wrapper_wf(self.wrappers@[k]));
            self.wrappers@[k].iter.lemma_documents();
            let j = choose|j: int| 0 <= j < ws[k].len() && ws[k][j] == p;
            assert(self.wrappers@[k].iter.ahead()[j].doc_id < u64::MAX);
        }
    }

    fn doc_id(&self) -> (r: u64) {
        proof {
            self.lemma_front();
        }
        self.current_doc
    }

    fn term_freq(&self) -> (r: u64) {
        proof {
            self.lemma_front();
        }
        if self.wrappers.len() == 0 {
            0
        } else {
            self.wrappers[self.min_idx].iter.term_freq()
        }
    }

    fn positions(&self) -> (r: Result<Vec<u64>, LaurusError>) {
        proof {
            self.lemma_front();
        }
        if self.wrappers.len() == 0 {
            let r: Vec<u64> = Vec::new();
            assert(r@ =~= Seq::empty());
            Ok(r)
        } else {
            self.wrappers[self.min_idx].iter.positions()
        }
    }

    fn next(&mut self) -> (r: Result<bool, LaurusError>) {
        proof {
            self.lemma_front();
        }
        if !self.started {
            self.started = true;
            return Ok(self.wrappers.len() > 0);
        }
        self.advance()
    }

    fn skip_to(&mut self, target: u64) -> (r: Result<bool, LaurusError>)
        ensures
            r is Ok ==> final(self).ahead() == posting::from_target(old(self).ahead(), target),
    {
        let ghost before = self.ahead();
        let ghost mut gone: int = 0;
        self.started = true;
        proof {
            assert(self.ahead() == before);
            self.lemma_documents();
            assert(self.costs().skip(0) =~= self.costs());
            assert(before.skip(0) =~= before);
        }
        while self.doc_id() < target
            invariant
                self.wf(),
                self.started,
                before == old(self).ahead(),
                old(self).costs().len() == before.len() + 1,
                self.costs() == old(self).costs().skip(gone),
                forall|e: LaurusError| #[trigger] self.may_fail(e) ==> old(self).may_fail(e),
                forall|i: int| 0 <= i < before.len() ==> (#[trigger] before[i]).doc_id < u64::MAX,
                0 <= gone <= before.len(),
                self.ahead() == before.skip(gone),
                forall|i: int| 0 <= i < gone ==> (#[trigger] before[i]).doc_id < target,
            decreases before.len() - gone,
        {
            assert(self.ahead().len() > 0);
            assert(before[gone].doc_id < target) by {
                assert(self.ahead()[0] == before[gone]);
            }
            assert(before.skip(gone).drop_first() =~= before.skip(gone + 1));
            assert(old(self).costs().skip(gone).drop_first() =~= old(self).costs().skip(gone + 1));
            match self.advance() {
                Ok(more) => {
                    proof {
                        gone = gone + 1;
                    }
                    if !more {
                        proof {
                            lemma_from_target(before, target, gone);
                            assert(self.ahead() =~= before.subrange(
                                before.len() as int,
                                before.len() as int,
                            ));
                        }
                        return Ok(false);
                    }
                },
                Err(e) => return Err(e),
            }
        }
        proof {
            if gone < before.len() {
                assert(self.ahead()[0] == before[gone]);
            }
            lemma_from_target(before, target, gone);
            assert(self.ahead() =~= before.subrange(gone, before.len() as int));
        }
        Ok(self.doc_id() != u64::MAX)
    }

    fn cost(&self) -> (r: u64) {
        let mut r: u64 = 0;
        let mut i: usize = 0;
        proof {
            self.lemma_front();
        }
        let ghost cs = costs_of(self.wrappers@);
        assert(cs.take(0) =~= Seq::empty());
        while i < self.wrappers.len()
            invariant
                i <= self.wrappers@.len(),
                wrappers_wf(self.wrappers@),
                cs == costs_of(self.wrappers@),
                cost_sum(costs_of(self.wrappers@)) <= u64::MAX,
                r == cost_sum(costs_of(self.wrappers@).take(i as int)),
            decreases self.wrappers@.len() - i,
        {
            proof {
                assert(wrapper_wf(self.wrappers@[i as int]));
                assert(cs.take(i + 1).drop_last() =~= cs.take(i as int));
                lemma_cost_sum_prefix(cs, i + 1);
            }
            r = r + self.wrappers[i].iter.cost();
            i = i + 1;
        }
        assert(cs.take(cs.len() as int) =~= cs);
        r
    }
}

proof fn lemma_cost_sum_prefix(cs: Seq<Seq<nat>>, n: int)
    requires
        0 <= n <= cs.len(),
    ensures
        cost_sum(cs.take(n)) <= cost_sum(cs),
    decreases cs.len(),
{
    if n < cs.len() {
        lemma_cost_sum_prefix(cs.drop_last(), n);
        assert(cs.drop_last().take(n) =~= cs.take(n));
    } else {
        assert(cs.take(n) =~= cs);
    }
}

/// A posting that occurs in the streams occurs in one of them.
proof fn lemma_count_from(ws: Seq<Seq<PostingView>>, p: PostingView)
    requires
        stream_count(ws, p) > 0,
    ensures
        exists|k: int| 0 <= k < ws.len() && (#[trigger] ws[k]).contains(p),
    decreases ws.len(),
{
    broadcast use group_to_multiset_ensures;

    if ws.len() > 0 {
        if ws.last().to_multiset().count(p) > 0 {
            assert(ws[ws.len() - 1].contains(p));
        } else {
            lemma_count_from(ws.drop_last(), p);
            let k = choose|k: int|
                0 <= k < ws.drop_last().len() && (#[trigger] ws.drop_last()[k]).contains(p);
            assert(ws[k].contains(p));
        }
    }
}

} // verus!
