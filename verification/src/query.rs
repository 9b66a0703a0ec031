//! Queries and what they find.

use vstd::prelude::*;

use crate::data::Document;
use crate::names;
use crate::names::FieldMap;

verus! {

/// A document that was found, with the text of its fields. The score is the pattern of a
/// number.
#[derive(Debug, Clone)]
pub struct Hit {
    pub doc_id: u64,
    pub score: u32,
    pub fields: FieldMap<String>,
}

/// A document that was found, with what is stored of it where that was asked for. The
/// score is the pattern of a number.
#[derive(Debug, Clone)]
pub struct SearchHit {
    pub doc_id: u64,
    pub score: u32,
    pub document: Option<Document>,
}

/// What a search found: the best documents, how many there are in all, and the greatest
/// score as the pattern of a number.
#[derive(Debug, Clone)]
pub struct LexicalSearchResults {
    pub hits: Vec<SearchHit>,
    pub total_hits: u64,
    pub max_score: u32,
}

/// A document and its score, as the pattern of a number.
#[derive(Debug, Clone, Copy, PartialEq, Eq)]
pub struct QueryResult {
    pub doc_id: u64,
    pub score: u32,
}

/// What a query would highlight, over the tokens of a text.
#[derive(Debug, Clone, PartialEq, Eq)]
pub enum HighlightTerm {
    /// Tokens that are this term.
    Exact(String),
    /// Tokens that are these terms in their order, with at most `slop` positions
    /// between two of them.
    Phrase { terms: Vec<String>, slop: u32 },
    /// Tokens that begin with this.
    Prefix(String),
    /// Tokens that match this regular expression.
    Regex(String),
    /// Tokens within this number of edits of a term.
    Fuzzy { term: String, max_edits: u32 },
}

/// The characters of a name.
pub type Name = Seq<char>;

/// A query.
pub trait Query: Sized {
    /// The field that the query searches, where it is a single one.
    spec fn target(&self) -> Option<Name>;

    /// The factor of the scores, as the pattern of a number.
    spec fn weight(&self) -> u32;

    /// The factor of the scores.
    fn boost(&self) -> (r: u32)
        ensures
            r == self.weight(),
    ;

    /// Sets the factor of the scores.
    fn set_boost(&mut self, boost: u32)
        ensures
            final(self).weight() == boost,
            final(self).target() == old(self).target(),
    ;

    /// The query in words.
    fn description(&self) -> String;

    /// The field that the query searches, where it is a single one.
    fn field(&self) -> (r: Option<&str>)
        ensures
            match r {
                Some(f) => self.target() == Some(f@),
                None => self.target() is None,
            },
    ;

    /// Adds the names of the fields that the query and its parts search.
    fn collect_field_refs(&self, out: &mut FieldMap<()>)
        requires
            old(out).wf(),
        ensures
            final(out).wf(),
            forall|name: Seq<char>|
                names::has_name(old(out)@, name) ==> #[trigger] names::has_name(final(out)@, name),
        default_ensures
            forall|name: Seq<char>| #[trigger]
                names::has_name(final(out)@, name) <==> names::has_name(old(out)@, name)
                    || self.target() == Some(name),
    {
        let ghost before = out@;
        match self.field() {
            Some(f) => {
                proof {
                    names::lemma_with_value(before, f@, ());
                }
                out.insert(f.to_string(), ());
                proof {
                    assert forall|name: Seq<char>| #[trigger]
                        names::has_name(out@, name) <==> names::has_name(before, name)
                            || self.target() == Some(name) by {
                        lemma_has_value(before, name);
                        lemma_has_value(out@, name);
                    }
                }
            },
            None => {},
        }
    }

    /// Adds what the query would highlight in a field, or in all fields where none is
    /// given.
    fn collect_highlight_terms(&self, field: Option<&str>, out: &mut Vec<HighlightTerm>)
        ensures
            old(out)@.is_prefix_of(final(out)@),
        default_ensures
            final(out)@ == old(out)@,
    {
    }

    /// Multiplies the factor of the scores with that of the field that is searched, where
    /// there is one. `multiply` multiplies two numbers.
    fn apply_field_boosts<M: Fn(u32, u32) -> u32>(
        &mut self,
        boosts: &FieldMap<u32>,
        multiply: &M,
    )
        requires
            boosts.wf(),
            forall|a: u32, b: u32| call_requires(*multiply, (a, b)),
        ensures
            final(self).target() == old(self).target(),
        default_ensures
            match boost_for(boosts@, old(self).target()) {
                Some(b) => call_ensures(*multiply, (old(self).weight(), b), final(self).weight()),
                None => *final(self) == *old(self),
            },
    {
        let found: Option<u32> = match self.field() {
            Some(f) => match boosts.get(f) {
                Some(b) => Some(*b),
                None => None,
            },
            None => None,
        };
        match found {
            Some(b) => {
                let boost: u32 = (*multiply)(self.boost(), b);
                self.set_boost(boost);
            },
            None => {},
        }
    }

    /// A name for the set of documents that the query finds, where there is one: queries
    /// that find other documents have other names.
    fn cache_key(&self) -> (r: Option<String>)
        default_ensures
            r is None,
    {
        None
    }
}

/// The factor for a field, where it has one.
pub open spec fn boost_for(boosts: Seq<(Seq<char>, u32)>, field: Option<Seq<char>>) -> Option<u32> {
    match field {
        Some(f) => names::value_of(boosts, f),
        None => None,
    }
}

/// A query of a single field has the factor that is given for this field, and no other.
pub proof fn lemma_boost_for(boosts: Seq<(Seq<char>, u32)>, field: Seq<char>, i: int)
    requires
        names::names_ascend(boosts),
        0 <= i < boosts.len(),
    ensures
        boost_for(boosts, None) is None,
        boosts[i].0 == field ==> boost_for(boosts, Some(field)) == Some(boosts[i].1),
        boost_for(boosts, Some(field)) is Some ==> exists|k: int|
            0 <= k < boosts.len() && (#[trigger] boosts[k]) == (
                field,
                boost_for(boosts, Some(field))->Some_0,
            ),
{
    if boosts[i].0 == field {
        names::lemma_value_at(boosts, field, i);
    }
}

proof fn lemma_has_value(s: Seq<(Seq<char>, ())>, name: Seq<char>)
    requires
        names::names_ascend(s),
    ensures
        names::has_name(s, name) <==> names::value_of(s, name) is Some,
{
}

} // verus!
