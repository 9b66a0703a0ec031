//! Terms of a segment, and where their postings stand.

use vstd::prelude::*;

use crate::data;
use crate::names;
use crate::names::FieldMap;

verus! {

/// The last document of a block of postings, and the pattern of the greatest factor
/// that a posting of the block has in a score.
#[derive(Debug, Clone, Copy, PartialEq, Eq, Structural)]
pub struct BlockMax {
    pub last_doc_id: u64,
    pub max_factor: u32,
}

/// What a dictionary says of a term. The factor is a 32-bit pattern.
#[derive(Debug, PartialEq, Eq)]
pub struct TermInfo {
    pub posting_offset: u64,
    pub posting_length: u64,
    pub doc_frequency: u64,
    pub total_frequency: u64,
    pub max_score_factor: u32,
    pub block_max: Vec<BlockMax>,
}

/// What the entry of a term holds.
#[verifier::ext_equal]
pub struct TermInfoView {
    pub posting_offset: u64,
    pub posting_length: u64,
    pub doc_frequency: u64,
    pub total_frequency: u64,
    pub max_score_factor: u32,
    pub block_max: Seq<BlockMax>,
}

impl View for TermInfo {
    type V = TermInfoView;

    open spec fn view(&self) -> TermInfoView {
        TermInfoView {
            posting_offset: self.posting_offset,
            posting_length: self.posting_length,
            doc_frequency: self.doc_frequency,
            total_frequency: self.total_frequency,
            max_score_factor: self.max_score_factor,
            block_max: self.block_max@,
        }
    }
}

impl Clone for TermInfo {
    fn clone(&self) -> (r: TermInfo)
        ensures
            r@ == self@,
    {
        TermInfo {
            posting_offset: self.posting_offset,
            posting_length: self.posting_length,
            doc_frequency: self.doc_frequency,
            total_frequency: self.total_frequency,
            max_score_factor: self.max_score_factor,
            block_max: data::copy_vec(&self.block_max),
        }
    }
}

/// The name of a term of a field in a dictionary.
pub open spec fn full_term(field: Seq<char>, term: Seq<char>) -> Seq<char> {
    field + seq![':'] + term
}

/// The name of a term of a field in a dictionary.
pub fn full_term_of(field: &str, term: &str) -> (r: String)
    ensures
        r@ == full_term(field@, term@),
{
    proof {
        reveal_strlit(":");
        assert(":"@ =~= seq![':']);
    }
    let mut r: String = field.to_string();
    r.append(":");
    r.append(term);
    r
}

/// The dictionary of a segment: its terms, each as `field:term`, and the version of
/// the format of its postings.
#[derive(Debug, PartialEq)]
pub struct TermDictionary {
    pub terms: FieldMap<TermInfo>,
    pub posting_format_version: u32,
}

impl TermDictionary {
    /// The names ascend.
    pub open spec fn wf(&self) -> bool {
        self.terms.wf()
    }

    /// The entry of a term.
    pub open spec fn entry(&self, field: Seq<char>, term: Seq<char>) -> Option<TermInfoView> {
        match names::value_of(self.terms@, full_term(field, term)) {
            Some(v) => Some(v@),
            None => None,
        }
    }

    /// The entry of a term.
    pub fn get(&self, field: &str, term: &str) -> (r: Option<TermInfo>)
        requires
            self.wf(),
        ensures
            match self.entry(field@, term@) {
                Some(v) => r is Some && r->Some_0@ == v,
                None => r is None,
            },
    {
        match self.terms.get(full_term_of(field, term).as_str()) {
            Some(info) => Some(info.clone()),
            None => None,
        }
    }
}

} // verus!
