//! The lengths and statistics of the fields of a segment.
//!
//! # The `.lens` part
//!
//! ```text
//! document count (varint)
//!   { document id (8 bytes) | field count (varint) | { name | length (4 bytes) } }
//! ```
//!
//! # The `.fstats` part
//!
//! ```text
//! field count (varint)
//!   { name | document count | average length | least length | greatest length }
//! ```
//!
//! with 8 bytes for each number.

use std::collections::BTreeMap;

use vstd::prelude::*;

use crate::codec;
use crate::error::LaurusError;
use crate::names;
use crate::names::FieldMap;

verus! {

/// Statistics of a field. The average is a 64-bit pattern.
#[derive(Debug, PartialEq, Eq)]
pub struct FieldStats {
    pub field: String,
    pub unique_terms: u64,
    pub total_terms: u64,
    pub doc_count: u64,
    pub avg_length: u64,
    pub min_length: u64,
    pub max_length: u64,
}

/// What statistics hold.
pub struct StatsView {
    pub field: Seq<char>,
    pub unique_terms: u64,
    pub total_terms: u64,
    pub doc_count: u64,
    pub avg_length: u64,
    pub min_length: u64,
    pub max_length: u64,
}

impl View for FieldStats {
    type V = StatsView;

    open spec fn view(&self) -> StatsView {
        StatsView {
            field: self.field@,
            unique_terms: self.unique_terms,
            total_terms: self.total_terms,
            doc_count: self.doc_count,
            avg_length: self.avg_length,
            min_length: self.min_length,
            max_length: self.max_length,
        }
    }
}

impl Clone for FieldStats {
    fn clone(&self) -> (r: FieldStats)
        ensures
            r@ == self@,
    {
        FieldStats {
            field: self.field.clone(),
            unique_terms: self.unique_terms,
            total_terms: self.total_terms,
            doc_count: self.doc_count,
            avg_length: self.avg_length,
            min_length: self.min_length,
            max_length: self.max_length,
        }
    }
}

/// Takes the name and the length of a field.
pub open spec fn take_length() -> spec_fn(Seq<u8>, int) -> codec::Taken<(Seq<char>, u32)> {
    |b: Seq<u8>, p: int|
        match codec::take_str(b, p, "field name") {
            Err(e) => Err(e),
            Ok((name, p1)) => match codec::take_u32(b, p1, "field length") {
                Err(e) => Err(e),
                Ok((length, p2)) => Ok(((name, length), p2)),
            },
        }
}

/// The lengths of the fields of a document, by name.
pub type Lengths = Seq<(Seq<char>, u32)>;

/// Takes a document and the lengths of its fields.
pub open spec fn take_lengths() -> spec_fn(Seq<u8>, int) -> codec::Taken<(u64, Lengths)> {
    |b: Seq<u8>, p: int|
        match codec::take_u64(b, p, "document id") {
            Err(e) => Err(e),
            Ok((id, p1)) => match codec::take_varint(b, p1, "field count") {
                Err(e) => Err(e),
                Ok((n, p2)) => match codec::take_many(take_length(), b, p2, n as nat) {
                    Err(e) => Err(e),
                    Ok((s, p3)) => Ok(((id, names::latest(s)), p3)),
                },
            },
        }
}

/// Lengths by document: later ones take the place of earlier ones.
pub open spec fn lengths_by_id(s: Seq<(u64, Lengths)>) -> Map<u64, Lengths>
    decreases s.len(),
{
    if s.len() == 0 {
        Map::empty()
    } else {
        lengths_by_id(s.drop_last()).insert(s.last().0, s.last().1)
    }
}

/// The lengths of a `.lens` part.
pub open spec fn take_lens(b: Seq<u8>) -> Result<Map<u64, Lengths>, LaurusError> {
    match codec::take_varint(b, 0, "document count") {
        Err(e) => Err(e),
        Ok((n, p)) => match codec::take_many(take_lengths(), b, p, n as nat) {
            Err(e) => Err(e),
            Ok((s, _)) => Ok(lengths_by_id(s)),
        },
    }
}

/// Takes the name and the statistics of a field.
pub open spec fn take_stats() -> spec_fn(Seq<u8>, int) -> codec::Taken<(Seq<char>, StatsView)> {
    |b: Seq<u8>, p: int|
        match codec::take_str(b, p, "field name") {
            Err(e) => Err(e),
            Ok((field, p1)) => match codec::take_u64(b, p1, "field statistics") {
                Err(e) => Err(e),
                Ok((doc_count, p2)) => match codec::take_u64(b, p2, "field statistics") {
                    Err(e) => Err(e),
                    Ok((avg_length, p3)) => match codec::take_u64(b, p3, "field statistics") {
                        Err(e) => Err(e),
                        Ok((min_length, p4)) => match codec::take_u64(b, p4, "field statistics") {
                            Err(e) => Err(e),
                            Ok((max_length, p5)) => Ok(
                                (
                                    (
                                        field,
                                        StatsView {
                                            field,
                                            unique_terms: 0,
                                            total_terms: 0,
                                            doc_count,
                                            avg_length,
                                            min_length,
                                            max_length,
                                        },
                                    ),
                                    p5,
                                ),
                            ),
                        },
                    },
                },
            },
        }
}

/// The statistics of a `.fstats` part.
pub open spec fn take_fstats(b: Seq<u8>) -> Result<Seq<(Seq<char>, StatsView)>, LaurusError> {
    match codec::take_varint(b, 0, "field count") {
        Err(e) => Err(e),
        Ok((n, p)) => match codec::take_many(take_stats(), b, p, n as nat) {
            Err(e) => Err(e),
            Ok((s, _)) => Ok(names::latest(s)),
        },
    }
}

/// What named statistics hold.
pub open spec fn stats_view(s: Seq<(Seq<char>, FieldStats)>) -> Seq<(Seq<char>, StatsView)> {
    s.map_values(|e: (Seq<char>, FieldStats)| (e.0, e.1@))
}

/// What lengths by document hold.
pub open spec fn lengths_view(m: Map<u64, FieldMap<u32>>) -> Map<u64, Lengths> {
    m.map_values(|f: FieldMap<u32>| f@)
}

/// Whether the names of every document ascend.
pub open spec fn lengths_wf(m: Map<u64, FieldMap<u32>>) -> bool {
    forall|id: u64| #[trigger] m.contains_key(id) ==> m[id].wf()
}

/// The place of a name does not depend on the values.
proof fn lemma_stats_place(s: Seq<(Seq<char>, FieldStats)>, name: Seq<char>)
    ensures
        names::place_of(stats_view(s), name) == names::place_of(s, name),
    decreases s.len(),
{
    if s.len() > 0 {
        lemma_stats_place(s.drop_last(), name);
        assert(stats_view(s).drop_last() =~= stats_view(s.drop_last()));
    }
}

proof fn lemma_stats_with(s: Seq<(Seq<char>, FieldStats)>, name: Seq<char>, v: FieldStats)
    requires
        names::names_ascend(s),
    ensures
        stats_view(names::with_value(s, name, v)) == names::with_value(stats_view(s), name, v@),
{
    lemma_stats_place(s, name);
    names::lemma_place(s, name);
    assert(stats_view(names::with_value(s, name, v)) =~= names::with_value(stats_view(s), name, v@));
}

/// The value of a name holds the same.
pub proof fn lemma_stats_value(s: Seq<(Seq<char>, FieldStats)>, name: Seq<char>)
    requires
        names::names_ascend(s),
    ensures
        names::value_of(stats_view(s), name) == match names::value_of(s, name) {
            Some(v) => Some(v@),
            None => None,
        },
{
    let t = stats_view(s);
    assert forall|i: int, j: int| 0 <= i < j < t.len() implies names::name_before(
        #[trigger] t[i].0,
        #[trigger] t[j].0,
    ) by {
        assert(t[i].0 == s[i].0 && t[j].0 == s[j].0);
    }
    if names::has_name(s, name) {
        let i = choose|i: int| 0 <= i < s.len() && #[trigger] s[i].0 == name;
        assert(t[i].0 == name);
        names::lemma_value_at(s, name, i);
        names::lemma_value_at(t, name, i);
    } else if names::has_name(t, name) {
        let i = choose|i: int| 0 <= i < t.len() && #[trigger] t[i].0 == name;
        assert(s[i].0 == name);
    }
}

fn read_lengths(bytes: &[u8], cursor: &mut usize) -> (r: Result<(u64, FieldMap<u32>), LaurusError>)
    requires
        *old(cursor) <= bytes@.len(),
    ensures
        match take_lengths()(bytes@, *old(cursor) as int) {
            Err(e) => r == Err::<(u64, FieldMap<u32>), LaurusError>(e),
            Ok((v, q)) => r is Ok && r->Ok_0.0 == v.0 && r->Ok_0.1@ == v.1 && r->Ok_0.1.wf()
                && *final(cursor) == q,
        },
        *final(cursor) <= bytes@.len(),
{
    let ghost from = *cursor as int;
    let id: u64 = match codec::read_u64_le(bytes, cursor, "document id") {
        Ok(v) => v,
        Err(e) => return Err(e),
    };
    let n: u64 = match codec::read_varint(bytes, cursor, "field count") {
        Ok(v) => v,
        Err(e) => return Err(e),
    };
    let ghost start = *cursor as int;
    let ghost f = take_length();
    let ghost mut s: Lengths = Seq::empty();
    let mut lengths: FieldMap<u32> = FieldMap::new();
    let mut i: u64 = 0;
    assert(lengths@ =~= names::latest(s));
    while i < n
        invariant
            i <= n,
            *cursor <= bytes@.len(),
            f == take_length(),
            take_lengths()(bytes@, from) == match codec::take_many(f, bytes@, start, n as nat) {
                Err(e) => Err::<((u64, Lengths), int), LaurusError>(e),
                Ok((s, p)) => Ok(((id, names::latest(s)), p)),
            },
            from == *old(cursor),
            s.len() == i,
            codec::take_many(f, bytes@, start, i as nat) == Ok::<_, LaurusError>(
                (s, *cursor as int),
            ),
            lengths@ == names::latest(s),
            lengths.wf(),
        decreases n - i,
    {
        let ghost here = *cursor as int;
        let name: String = match codec::read_len_prefixed_str(bytes, cursor, "field name") {
            Ok(v) => v,
            Err(e) => {
                proof {
                    codec::lemma_many_fails(f, bytes@, start, (i + 1) as nat, n as nat);
                }
                return Err(e);
            },
        };
        let length: u32 = match codec::read_u32_le(bytes, cursor, "field length") {
            Ok(v) => v,
            Err(e) => {
                proof {
                    codec::lemma_many_fails(f, bytes@, start, (i + 1) as nat, n as nat);
                }
                return Err(e);
            },
        };
        proof {
            assert(s.push((name@, length)).drop_last() =~= s);
            s = s.push((name@, length));
            names::lemma_with_value(lengths@, name@, length);
        }
        lengths.insert(name, length);
        i = i + 1;
    }
    Ok((id, lengths))
}

fn read_lens(bytes: &[u8]) -> (r: Result<BTreeMap<u64, FieldMap<u32>>, LaurusError>)
    ensures
        match take_lens(bytes@) {
            Err(e) => r == Err::<BTreeMap<u64, FieldMap<u32>>, LaurusError>(e),
            Ok(m) => r is Ok && lengths_view(r->Ok_0@) == m && lengths_wf(r->Ok_0@),
        },
{
    let mut cursor: usize = 0;
    let n: u64 = match codec::read_varint(bytes, &mut cursor, "document count") {
        Ok(v) => v,
        Err(e) => return Err(e),
    };
    let ghost start = cursor as int;
    let ghost f = take_lengths();
    let ghost mut s: Seq<(u64, Lengths)> = Seq::empty();
    let mut all: BTreeMap<u64, FieldMap<u32>> = BTreeMap::new();
    let mut i: u64 = 0;
    assert(lengths_view(all@) =~= lengths_by_id(s));
    while i < n
        invariant
            i <= n,
            cursor <= bytes@.len(),
            f == take_lengths(),
            take_lens(bytes@) == match codec::take_many(f, bytes@, start, n as nat) {
                Err(e) => Err::<Map<u64, Lengths>, LaurusError>(e),
                Ok((s, _)) => Ok(lengths_by_id(s)),
            },
            s.len() == i,
            codec::take_many(f, bytes@, start, i as nat) == Ok::<_, LaurusError>((s, cursor as int)),
            lengths_view(all@) == lengths_by_id(s),
            lengths_wf(all@),
        decreases n - i,
    {
        match read_lengths(bytes, &mut cursor) {
            Ok((id, lengths)) => {
                let ghost before = all@;
                proof {
                    assert(s.push((id, lengths@)).drop_last() =~= s);
                    s = s.push((id, lengths@));
                }
                all.insert(id, lengths);
                assert(lengths_view(all@) =~= lengths_view(before).insert(id, lengths@));
            },
            Err(e) => {
                proof {
                    codec::lemma_many_fails(f, bytes@, start, (i + 1) as nat, n as nat);
                }
                return Err(e);
            },
        }
        i = i + 1;
    }
    Ok(all)
}

fn read_stats(bytes: &[u8], cursor: &mut usize) -> (r: Result<FieldStats, LaurusError>)
    requires
        *old(cursor) <= bytes@.len(),
    ensures
        match take_stats()(bytes@, *old(cursor) as int) {
            Err(e) => r == Err::<FieldStats, LaurusError>(e),
            Ok((v, q)) => r is Ok && r->Ok_0.field@ == v.0 && r->Ok_0@ == v.1 && *final(cursor) == q,
        },
        *final(cursor) <= bytes@.len(),
{
    let field: String = match codec::read_len_prefixed_str(bytes, cursor, "field name") {
        Ok(v) => v,
        Err(e) => return Err(e),
    };
    let doc_count: u64 = match codec::read_u64_le(bytes, cursor, "field statistics") {
        Ok(v) => v,
        Err(e) => return Err(e),
    };
    let avg_length: u64 = match codec::read_u64_le(bytes, cursor, "field statistics") {
        Ok(v) => v,
        Err(e) => return Err(e),
    };
    let min_length: u64 = match codec::read_u64_le(bytes, cursor, "field statistics") {
        Ok(v) => v,
        Err(e) => return Err(e),
    };
    let max_length: u64 = match codec::read_u64_le(bytes, cursor, "field statistics") {
        Ok(v) => v,
        Err(e) => return Err(e),
    };
    Ok(
        FieldStats {
            field,
            unique_terms: 0,
            total_terms: 0,
            doc_count,
            avg_length,
            min_length,
            max_length,
        },
    )
}

fn read_fstats(bytes: &[u8]) -> (r: Result<FieldMap<FieldStats>, LaurusError>)
    ensures
        match take_fstats(bytes@) {
            Err(e) => r == Err::<FieldMap<FieldStats>, LaurusError>(e),
            Ok(s) => r is Ok && stats_view(r->Ok_0@) == s && r->Ok_0.wf(),
        },
{
    let mut cursor: usize = 0;
    let n: u64 = match codec::read_varint(bytes, &mut cursor, "field count") {
        Ok(v) => v,
        Err(e) => return Err(e),
    };
    let ghost start = cursor as int;
    let ghost f = take_stats();
    let ghost mut s: Seq<(Seq<char>, StatsView)> = Seq::empty();
    let mut all: FieldMap<FieldStats> = FieldMap::new();
    let mut i: u64 = 0;
    assert(stats_view(all@) =~= names::latest(s));
    while i < n
        invariant
            i <= n,
            cursor <= bytes@.len(),
            f == take_stats(),
            take_fstats(bytes@) == match codec::take_many(f, bytes@, start, n as nat) {
                Err(e) => Err::<Seq<(Seq<char>, StatsView)>, LaurusError>(e),
                Ok((s, _)) => Ok(names::latest(s)),
            },
            s.len() == i,
            codec::take_many(f, bytes@, start, i as nat) == Ok::<_, LaurusError>((s, cursor as int)),
            stats_view(all@) == names::latest(s),
            all.wf(),
        decreases n - i,
    {
        match read_stats(bytes, &mut cursor) {
            Ok(stats) => {
                let name: String = stats.field.clone();
                proof {
                    assert(s.push((name@, stats@)).drop_last() =~= s);
                    s = s.push((name@, stats@));
                    lemma_stats_with(all@, name@, stats);
                }
                all.insert(name, stats);
            },
            Err(e) => {
                proof {
                    codec::lemma_many_fails(f, bytes@, start, (i + 1) as nat, n as nat);
                }
                return Err(e);
            },
        }
        i = i + 1;
    }
    Ok(all)
}

/// The lengths and statistics of the fields of a segment.
#[derive(Debug)]
pub struct SegmentNorms {
    lengths: BTreeMap<u64, FieldMap<u32>>,
    stats: FieldMap<FieldStats>,
}

impl SegmentNorms {
    /// The lengths of the fields of each document.
    pub closed spec fn all_lengths(&self) -> Map<u64, Lengths> {
        lengths_view(self.lengths@)
    }

    /// The statistics of each field.
    pub closed spec fn all_stats(&self) -> Seq<(Seq<char>, StatsView)> {
        stats_view(self.stats@)
    }

    #[verifier::type_invariant]
    spec fn is_in_order(self) -> bool {
        lengths_wf(self.lengths@) && self.stats.wf()
    }

    /// The length of a field of a document.
    pub open spec fn length_of(&self, doc_id: u64, field: Seq<char>) -> Option<u32> {
        if self.all_lengths().contains_key(doc_id) {
            names::value_of(self.all_lengths()[doc_id], field)
        } else {
            None
        }
    }

    /// What `lengths` and `stats` hold.
    pub fn new(lengths: BTreeMap<u64, FieldMap<u32>>, stats: FieldMap<FieldStats>) -> (r: SegmentNorms)
        requires
            lengths_wf(lengths@),
            stats.wf(),
        ensures
            r.all_lengths() == lengths_view(lengths@),
            r.all_stats() == stats_view(stats@),
    {
        SegmentNorms { lengths, stats }
    }

    /// Reads the `.lens` and the `.fstats` part; a part that is not there is empty.
    pub fn load(lens: Option<&[u8]>, fstats: Option<&[u8]>) -> (r: Result<SegmentNorms, LaurusError>)
        ensures
            ({
                let lengths = match lens {
                    Some(b) => take_lens(b@),
                    None => Ok(Map::empty()),
                };
                let stats = match fstats {
                    Some(b) => take_fstats(b@),
                    None => Ok(Seq::empty()),
                };
                match (lengths, stats) {
                    (Err(e), _) => r == Err::<SegmentNorms, LaurusError>(e),
                    (_, Err(e)) => r == Err::<SegmentNorms, LaurusError>(e),
                    (Ok(m), Ok(s)) => r is Ok && r->Ok_0.all_lengths() == m && r->Ok_0.all_stats()
                        == s,
                }
            }),
    {
        let lengths: BTreeMap<u64, FieldMap<u32>> = match lens {
            Some(bytes) => match read_lens(bytes) {
                Ok(m) => m,
                Err(e) => return Err(e),
            },
            None => {
                let m: BTreeMap<u64, FieldMap<u32>> = BTreeMap::new();
                assert(lengths_view(m@) =~= Map::empty());
                m
            },
        };
        let stats: FieldMap<FieldStats> = match fstats {
            Some(bytes) => match read_fstats(bytes) {
                Ok(m) => m,
                Err(e) => return Err(e),
            },
            None => {
                let m: FieldMap<FieldStats> = FieldMap::new();
                assert(stats_view(m@) =~= Seq::empty());
                m
            },
        };
        Ok(SegmentNorms { lengths, stats })
    }

    /// The length of a field of a document.
    pub fn field_length(&self, doc_id: u64, field: &str) -> (r: Option<u32>)
        ensures
            r == self.length_of(doc_id, field@),
    {
        proof {
            use_type_invariant(self);
        }
        match self.lengths.get(&doc_id) {
            Some(lengths) => {
                assert(self.all_lengths()[doc_id] == lengths@);
                match lengths.get(field) {
                    Some(length) => Some(*length),
                    None => None,
                }
            },
            None => None,
        }
    }

    /// The statistics of a field.
    pub fn field_stats(&self, field: &str) -> (r: Option<FieldStats>)
        ensures
            match names::value_of(self.all_stats(), field@) {
                Some(s) => r is Some && r->Some_0@ == s,
                None => r is None,
            },
    {
        proof {
            use_type_invariant(self);
            lemma_stats_value(self.stats@, field@);
        }
        match self.stats.get(field) {
            Some(stats) => Some(stats.clone()),
            None => None,
        }
    }

    /// The names of the fields that have statistics.
    pub fn field_names(&self) -> (r: Vec<String>)
        ensures
            r@.len() == self.all_stats().len(),
            forall|i: int| 0 <= i < r@.len() ==> #[trigger] r@[i]@ == self.all_stats()[i].0,
    {
        let mut names: Vec<String> = Vec::new();
        let n: usize = self.stats.len();
        let mut i: usize = 0;
        while i < n
            invariant
                n == self.stats@.len(),
                i <= n,
                names@.len() == i,
                forall|j: int| 0 <= j < i ==> #[trigger] names@[j]@ == self.stats@[j].0,
            decreases n - i,
        {
            names.push(self.stats.name_at(i).clone());
            i = i + 1;
        }
        names
    }
}

} // verus!
