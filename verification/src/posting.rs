//! Posting lists and the iterators over them.

use vstd::multiset::*;
use vstd::prelude::*;
use vstd::seq_lib::*;

use crate::error::LaurusError;

verus! {

/// How many entries of one level an entry of the level above stands for.
pub const SKIP_INTERVAL: usize = 8;

/// The pattern of the weight one.
pub const WEIGHT_ONE: u32 = 0x3f80_0000;

/// An occurrence of a term in a document. The weight is the pattern of a 32-bit
/// number.
#[derive(Debug)]
pub struct Posting {
    pub doc_id: u64,
    pub frequency: u32,
    pub positions: Option<Vec<u32>>,
    pub weight: u32,
}

/// What a posting says to a query.
#[verifier::ext_equal]
pub struct PostingView {
    pub doc_id: u64,
    pub frequency: u64,
    pub positions: Seq<u64>,
}

/// Positions as 64-bit integers.
pub open spec fn widened(s: Seq<u32>) -> Seq<u64> {
    s.map_values(|v: u32| v as u64)
}

/// Positions that may be missing.
pub open spec fn positions_view(p: Option<Vec<u32>>) -> Seq<u64> {
    match p {
        Some(v) => widened(v@),
        None => Seq::empty(),
    }
}

/// A document as a segment numbers it.
pub open spec fn narrowed(doc_id: u64) -> u32 {
    #[verifier::truncate]
    (doc_id as u32)
}

impl Posting {
    /// A posting without positions, of weight one.
    pub fn with_frequency(doc_id: u64, frequency: u32) -> (r: Posting)
        ensures
            r == (Posting { doc_id, frequency, positions: None, weight: WEIGHT_ONE }),
    {
        Posting { doc_id, frequency, positions: None, weight: WEIGHT_ONE }
    }

    /// What the posting says, its document as a segment numbers it.
    pub open spec fn shown(&self) -> PostingView {
        PostingView {
            doc_id: narrowed(self.doc_id) as u64,
            frequency: self.frequency as u64,
            positions: positions_view(self.positions),
        }
    }
}

pub(crate) fn copy_positions(p: &Option<Vec<u32>>) -> (r: Option<Vec<u32>>)
    ensures
        positions_view(r) == positions_view(*p),
        r is Some <==> *p is Some,
        r is Some ==> r->Some_0@ == p->Some_0@,
{
    match p {
        Some(v) => {
            let mut w: Vec<u32> = Vec::new();
            w.extend_from_slice(v.as_slice());
            assert(w@ =~= v@);
            Some(w)
        },
        None => None,
    }
}

impl Clone for Posting {
    fn clone(&self) -> (r: Posting)
        ensures
            r.doc_id == self.doc_id,
            r.frequency == self.frequency,
            r.weight == self.weight,
            r.positions is Some <==> self.positions is Some,
            r.positions is Some ==> r.positions->Some_0@ == self.positions->Some_0@,
    {
        Posting {
            doc_id: self.doc_id,
            frequency: self.frequency,
            positions: copy_positions(&self.positions),
            weight: self.weight,
        }
    }
}

// ---------------------------------------------------------------------------
// Skip tables
// ---------------------------------------------------------------------------

/// The last entry of each full run of eight.
pub open spec fn sampled(s: Seq<u32>) -> Seq<u32> {
    Seq::new((s.len() / 8) as nat, |j: int| s[8 * j + 7])
}

/// A level and those above it, until one has at most eight entries.
pub open spec fn levels_from(level: Seq<u32>) -> Seq<Seq<u32>>
    decreases level.len(),
{
    if level.len() == 0 {
        Seq::empty()
    } else if level.len() <= 8 {
        seq![level]
    } else {
        seq![level] + levels_from(sampled(level))
    }
}

/// The skip table of documents: each level holds the last document of each full
/// run of eight entries of the level below, the lowest of the documents.
pub open spec fn skip_levels_of(doc_ids: Seq<u32>) -> Seq<Seq<u32>> {
    levels_from(sampled(doc_ids))
}

/// The entries of levels.
pub open spec fn levels_view(levels: Seq<Vec<u32>>) -> Seq<Seq<u32>> {
    levels.map_values(|v: Vec<u32>| v@)
}

/// `8` to the power of `k`.
pub open spec fn pow8(k: nat) -> nat
    decreases k,
{
    if k == 0 {
        1
    } else {
        8 * pow8((k - 1) as nat)
    }
}

fn sample(s: &Vec<u32>) -> (r: Vec<u32>)
    ensures
        r@ == sampled(s@),
{
    let len: usize = s.len();
    let n: usize = len / 8;
    let mut r: Vec<u32> = Vec::new();
    let mut j: usize = 0;
    while j < n
        invariant
            len == s@.len(),
            n == len / 8,
            j <= n,
            r@.len() == j,
            forall|k: int| 0 <= k < j ==> (#[trigger] r@[k]) == s@[8 * k + 7],
        decreases n - j,
    {
        r.push(s[8 * j + 7]);
        j = j + 1;
    }
    assert(r@ =~= sampled(s@));
    r
}

/// Builds the skip table of documents.
pub fn build_skip_levels(doc_ids: &Vec<u32>) -> (r: Vec<Vec<u32>>)
    ensures
        levels_view(r@) == skip_levels_of(doc_ids@),
{
    let mut levels: Vec<Vec<u32>> = Vec::new();
    let mut level: Vec<u32> = sample(doc_ids);
    assert(levels_view(levels@) + levels_from(level@) =~= skip_levels_of(doc_ids@));
    while level.len() > SKIP_INTERVAL
        invariant
            levels_view(levels@) + levels_from(level@) == skip_levels_of(doc_ids@),
        decreases level@.len(),
    {
        let above: Vec<u32> = sample(&level);
        let ghost before = levels_view(levels@);
        let ghost here = level@;
        levels.push(level);
        assert(levels_view(levels@) =~= before.push(here));
        assert(levels_view(levels@) + levels_from(above@) =~= before + levels_from(here));
        level = above;
    }
    let ghost before = levels_view(levels@);
    let ghost here = level@;
    if level.len() > 0 {
        levels.push(level);
        assert(levels_view(levels@) =~= before.push(here));
        assert(levels_view(levels@) =~= before + levels_from(here));
    } else {
        assert(levels_view(levels@) =~= before + levels_from(here));
    }
    levels
}

/// Level `k` above `level` samples it at every run of eight to the power of `k`.
proof fn lemma_levels_from(level: Seq<u32>, k: int)
    requires
        0 <= k < levels_from(level).len(),
    ensures
        ({
            let up = levels_from(level)[k];
            &&& up.len() == level.len() as int / (pow8(k as nat) as int)
            &&& up.len() > 0
            &&& (k == levels_from(level).len() - 1 ==> up.len() <= 8)
            &&& forall|j: int|
                0 <= j < up.len() ==> (#[trigger] up[j]) == level[(j + 1) * pow8(k as nat) - 1]
                    && 0 < (j + 1) * pow8(k as nat) <= level.len()
        }),
    decreases level.len(),
{
    let up = levels_from(level)[k];
    let p = pow8(k as nat) as int;
    if k == 0 {
        assert(up == level);
        if level.len() > 8 {
            assert(levels_from(sampled(level)).len() > 0);
        }
        assert(level.len() as int / 1 == level.len());
        assert forall|j: int| 0 <= j < up.len() implies (#[trigger] up[j]) == level[(j + 1) * p - 1]
            && 0 < (j + 1) * p <= level.len() by {
            assert((j + 1) * 1 == j + 1);
        }
    } else {
        let below = sampled(level);
        let q = pow8((k - 1) as nat) as int;
        assert(levels_from(level)[k] == levels_from(below)[k - 1]);
        lemma_levels_from(below, k - 1);
        lemma_pow8_pos((k - 1) as nat);
        vstd::arithmetic::div_mod::lemma_div_denominator(level.len() as int, 8, q);
        assert forall|j: int| 0 <= j < up.len() implies (#[trigger] up[j]) == level[(j + 1) * p - 1]
            && 0 < (j + 1) * p <= level.len() by {
            let i = (j + 1) * q - 1;
            assert(up[j] == below[i]);
            assert((j + 1) * p == 8 * ((j + 1) * q)) by (nonlinear_arith)
                requires
                    p == 8 * q,
            ;
            assert(below[i] == level[8 * i + 7]);
        }
    }
}

proof fn lemma_pow8_pos(k: nat)
    ensures
        pow8(k) >= 1,
    decreases k,
{
    if k > 0 {
        lemma_pow8_pos((k - 1) as nat);
    }
}

/// Level `k` of a skip table holds the last document of each full run of eight
/// to the power of `k + 1`.
pub proof fn lemma_skip_levels(doc_ids: Seq<u32>, k: int)
    requires
        0 <= k < skip_levels_of(doc_ids).len(),
    ensures
        ({
            let level = skip_levels_of(doc_ids)[k];
            let step = pow8((k + 1) as nat);
            &&& level.len() == doc_ids.len() as int / (step as int)
            &&& level.len() > 0
            &&& step > 0
            &&& (k == skip_levels_of(doc_ids).len() - 1 ==> level.len() <= 8)
            &&& forall|j: int|
                0 <= j < level.len() ==> (#[trigger] level[j]) == doc_ids[(j + 1) * step - 1] && 0
                    < (j + 1) * step <= doc_ids.len()
        }),
{
    let base = sampled(doc_ids);
    let level = skip_levels_of(doc_ids)[k];
    let q = pow8(k as nat) as int;
    let step = pow8((k + 1) as nat) as int;
    lemma_levels_from(base, k);
    lemma_pow8_pos(k as nat);
    vstd::arithmetic::div_mod::lemma_div_denominator(doc_ids.len() as int, 8, q);
    assert forall|j: int| 0 <= j < level.len() implies (#[trigger] level[j]) == doc_ids[(j + 1)
        * step - 1] && 0 < (j + 1) * step <= doc_ids.len() by {
        let i = (j + 1) * q - 1;
        assert(level[j] == base[i]);
        assert((j + 1) * step == 8 * ((j + 1) * q)) by (nonlinear_arith)
            requires
                step == 8 * q,
        ;
        assert(base[i] == doc_ids[8 * i + 7]);
    }
}

// ---------------------------------------------------------------------------
// Decoded lists
// ---------------------------------------------------------------------------

/// A posting list as parallel arrays. The weights are patterns of 32-bit
/// numbers.
#[derive(Debug)]
pub struct DecodedPostingList {
    pub term: String,
    pub doc_ids: Vec<u32>,
    pub frequencies: Vec<u32>,
    pub weights: Vec<u32>,
    pub positions: Option<Vec<Option<Vec<u32>>>>,
    pub skip_levels: Vec<Vec<u32>>,
    pub total_frequency: u64,
    pub doc_frequency: u64,
}

impl DecodedPostingList {
    /// Whether the arrays are parallel.
    pub open spec fn aligned(&self) -> bool {
        &&& self.frequencies@.len() == self.doc_ids@.len()
        &&& self.positions is Some ==> self.positions->Some_0@.len() == self.doc_ids@.len()
    }

    /// Whether the arrays are parallel and the skip table is that of the
    /// documents.
    pub open spec fn wf(&self) -> bool {
        &&& self.aligned()
        &&& levels_view(self.skip_levels@) == skip_levels_of(self.doc_ids@)
    }

    /// Posting `i`.
    pub open spec fn posting(&self, i: int) -> PostingView {
        PostingView {
            doc_id: self.doc_ids@[i] as u64,
            frequency: self.frequencies@[i] as u64,
            positions: match self.positions {
                Some(per_doc) => positions_view(per_doc@[i]),
                None => Seq::empty(),
            },
        }
    }

    /// All postings.
    pub open spec fn postings(&self) -> Seq<PostingView> {
        Seq::new(self.doc_ids@.len(), |i: int| self.posting(i))
    }

    /// Whether there is no posting.
    pub fn is_empty(&self) -> (r: bool)
        ensures
            r == (self.doc_ids@.len() == 0),
    {
        self.doc_ids.len() == 0
    }
}

// ---------------------------------------------------------------------------
// Iterators
// ---------------------------------------------------------------------------

/// Whether the documents ascend.
pub open spec fn docs_ascend(s: Seq<PostingView>) -> bool {
    forall|i: int, j: int|
        0 <= i < j < s.len() ==> (#[trigger] s[i]).doc_id <= (#[trigger] s[j]).doc_id
}

/// What is left from the first document that is at least `target`.
pub open spec fn from_target(s: Seq<PostingView>, target: u64) -> Seq<PostingView>
    decreases s.len(),
{
    if s.len() == 0 || s[0].doc_id >= target {
        s
    } else {
        from_target(s.drop_first(), target)
    }
}

/// What is left behind the first posting.
pub open spec fn behind_first(s: Seq<PostingView>) -> Seq<PostingView> {
    if s.len() == 0 {
        s
    } else {
        s.drop_first()
    }
}

/// The costs once the first posting lies behind.
pub open spec fn costs_behind_first(costs: Seq<nat>) -> Seq<nat> {
    if costs.len() <= 1 {
        costs
    } else {
        costs.drop_first()
    }
}

/// The costs of a walk that always costs the same, with `left` postings ahead.
pub open spec fn even_costs(cost: nat, left: nat) -> Seq<nat> {
    Seq::new(left + 1, |i: int| cost)
}

/// What postings say.
pub type Postings = Seq<PostingView>;

/// What a walk costs, step by step.
pub type Costs = Seq<nat>;

/// Walks over postings.
pub trait PostingIterator: Sized {
    /// Whether the iterator is in order.
    spec fn wf(&self) -> bool;

    /// Whether the walk has begun.
    spec fn begun(&self) -> bool;

    /// The postings from the current one on.
    spec fn ahead(&self) -> Postings;

    /// What the walk costs: entry `i` once the first `i` postings ahead lie behind.
    spec fn costs(&self) -> Costs;

    /// Whether a call may fail for this reason.
    spec fn may_fail(&self, e: LaurusError) -> bool;

    /// Whether the next step may be taken without a failure.
    spec fn may_go_on(&self) -> bool;

    /// There is a cost for each posting and one for the end, and no document has all
    /// bits set.
    proof fn lemma_documents(&self)
        requires
            self.wf(),
        ensures
            self.costs().len() == self.ahead().len() + 1,
            forall|i: int| 0 <= i < self.ahead().len() ==> (#[trigger] self.ahead()[i]).doc_id
                < u64::MAX,
    ;

    /// The current document; all bits set where none is left.
    fn doc_id(&self) -> (r: u64)
        requires
            self.wf(),
        ensures
            r == (if self.ahead().len() > 0 {
                self.ahead()[0].doc_id
            } else {
                u64::MAX
            }),
    ;

    /// How often the term occurs in the current document.
    fn term_freq(&self) -> (r: u64)
        requires
            self.wf(),
        ensures
            r == (if self.ahead().len() > 0 {
                self.ahead()[0].frequency
            } else {
                0
            }),
    ;

    /// Where the term occurs in the current document.
    fn positions(&self) -> (r: Result<Vec<u64>, LaurusError>)
        requires
            self.wf(),
        ensures
            match r {
                Ok(p) => p@ == (if self.ahead().len() > 0 {
                    self.ahead()[0].positions
                } else {
                    Seq::empty()
                }),
                Err(e) => self.may_fail(e),
            },
    ;

    /// Begins with the first document, then goes on to the next one. Says whether
    /// there is one. Behind a failure nothing is known of the iterator.
    fn next(&mut self) -> (r: Result<bool, LaurusError>)
        requires
            old(self).wf(),
        ensures
            match r {
                Ok(more) => {
                    &&& old(self).may_go_on()
                    &&& final(self).wf()
                    &&& final(self).ahead() == (if old(self).begun() {
                        behind_first(old(self).ahead())
                    } else {
                        old(self).ahead()
                    })
                    &&& final(self).costs() == (if old(self).begun() {
                        costs_behind_first(old(self).costs())
                    } else {
                        old(self).costs()
                    })
                    &&& final(self).ahead().len() > 0 ==> final(self).begun()
                    &&& more == (final(self).ahead().len() > 0)
                    &&& forall|e: LaurusError| #[trigger]
                        final(self).may_fail(e) ==> old(self).may_fail(e)
                },
                Err(e) => old(self).may_fail(e),
            },
    ;

    /// Goes on to the first document from here on that is at least `target`. Says
    /// whether there is one. Behind a failure nothing is known of the iterator.
    fn skip_to(&mut self, target: u64) -> (r: Result<bool, LaurusError>)
        requires
            old(self).wf(),
        ensures
            match r {
                Ok(more) => {
                    &&& final(self).wf()
                    &&& final(self).ahead().len() > 0 ==> final(self).begun()
                    &&& docs_ascend(old(self).ahead()) ==> final(self).ahead() == from_target(
                        old(self).ahead(),
                        target,
                    )
                    &&& final(self).ahead().is_suffix_of(old(self).ahead())
                    &&& final(self).costs() == old(self).costs().skip(
                        old(self).ahead().len() - final(self).ahead().len(),
                    )
                    &&& more == (final(self).ahead().len() > 0)
                    &&& final(self).ahead().len() > 0 ==> final(self).ahead()[0].doc_id >= target
                    &&& forall|e: LaurusError| #[trigger]
                        final(self).may_fail(e) ==> old(self).may_fail(e)
                },
                Err(e) => old(self).may_fail(e),
            },
    ;

    /// How many postings there are at most to walk over.
    fn cost(&self) -> (r: u64)
        requires
            self.wf(),
            self.costs()[0] <= u64::MAX,
        ensures
            r == self.costs()[0],
    ;
}

} // verus!
