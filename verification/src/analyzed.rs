//! Documents after analysis, as the index takes them in.

use vstd::prelude::*;

use crate::data::DataValue;
use crate::names::FieldMap;

verus! {

/// A term of a field.
#[derive(Debug, PartialEq, Eq)]
pub struct AnalyzedTerm {
    pub term: String,
    /// The position of the term in its field.
    pub position: u32,
    /// How often the term occurs.
    pub frequency: u32,
    /// Where the term starts and ends in the text, in bytes.
    pub offset: (usize, usize),
}

/// What a term holds.
pub struct TermView {
    pub term: Seq<char>,
    pub position: u32,
    pub frequency: u32,
    pub offset: (usize, usize),
}

impl View for AnalyzedTerm {
    type V = TermView;

    open spec fn view(&self) -> TermView {
        TermView {
            term: self.term@,
            position: self.position,
            frequency: self.frequency,
            offset: self.offset,
        }
    }
}

/// What each term holds.
pub open spec fn term_views(s: Seq<AnalyzedTerm>) -> Seq<TermView> {
    s.map_values(|t: AnalyzedTerm| t@)
}

/// How often terms occur, all together.
pub open spec fn total_frequency(s: Seq<TermView>) -> nat
    decreases s.len(),
{
    if s.len() == 0 {
        0
    } else {
        total_frequency(s.drop_last()) + s.last().frequency as nat
    }
}

/// The length of a field with these terms: each term counts as often as it occurs. The
/// length is kept in 32 bits.
pub open spec fn length_of(s: Seq<TermView>) -> u32 {
    (total_frequency(s) % 0x1_0000_0000) as u32
}

/// Terms one behind another occur as often as the two parts together.
pub proof fn lemma_total_frequency_add(a: Seq<TermView>, b: Seq<TermView>)
    ensures
        total_frequency(a + b) == total_frequency(a) + total_frequency(b),
    decreases b.len(),
{
    if b.len() == 0 {
        assert(a + b =~= a);
    } else {
        assert((a + b).drop_last() =~= a + b.drop_last());
        lemma_total_frequency_add(a, b.drop_last());
    }
}

/// The length of a field with these terms.
pub fn field_length(terms: &Vec<AnalyzedTerm>) -> (r: u32)
    ensures
        r == length_of(term_views(terms@)),
{
    let ghost views = term_views(terms@);
    let n: usize = terms.len();
    let mut length: u32 = 0;
    let mut i: usize = 0;
    while i < n
        invariant
            n == terms@.len(),
            i <= n,
            views == term_views(terms@),
            length == total_frequency(views.take(i as int)) % 0x1_0000_0000,
        decreases n - i,
    {
        proof {
            assert(views.take(i + 1).drop_last() =~= views.take(i as int));
            assert(views[i as int] == terms@[i as int]@);
        }
        length = length.wrapping_add(terms[i].frequency);
        i = i + 1;
    }
    assert(views.take(n as int) =~= views);
    length
}

/// A document after analysis. Points are held by the bit patterns of their
/// coordinates.
#[derive(Debug, PartialEq)]
pub struct AnalyzedDocument {
    pub field_terms: FieldMap<Vec<AnalyzedTerm>>,
    pub stored_fields: FieldMap<DataValue>,
    pub point_values: FieldMap<Vec<Vec<u64>>>,
    pub field_lengths: FieldMap<u32>,
}

impl AnalyzedDocument {
    /// The names of every map ascend.
    pub open spec fn wf(&self) -> bool {
        &&& self.field_terms.wf()
        &&& self.stored_fields.wf()
        &&& self.point_values.wf()
        &&& self.field_lengths.wf()
    }

    /// A document without fields.
    pub fn new() -> (r: AnalyzedDocument)
        ensures
            r.wf(),
            r.field_terms@.len() == 0,
            r.stored_fields@.len() == 0,
            r.point_values@.len() == 0,
            r.field_lengths@.len() == 0,
    {
        AnalyzedDocument {
            field_terms: FieldMap::new(),
            stored_fields: FieldMap::new(),
            point_values: FieldMap::new(),
            field_lengths: FieldMap::new(),
        }
    }
}

} // verus!
