//! From documents to the terms and points that an index takes in.
//!
//! - Text is divided into tokens by an analyzer.
//! - Numbers, truth values, instants and points are indexed by their text, all
//!   but truth values also by a point.
//! - Bytes, vectors and null are stored only.
//!
//! Without a schema every field is indexed and stored. With one, a field follows
//! what was declared of it; a field that is not declared is dropped, unless its
//! name starts with an underscore.

use vstd::prelude::*;
use vstd::utf8::*;

use crate::analysis;
use crate::analysis::{Analyzer, Token, TokenView};
use crate::analyzed;
use crate::analyzed::{AnalyzedDocument, AnalyzedTerm, TermView};
use crate::data;
use crate::data::{DataValue, DataView, Document};
use crate::datetime;
use crate::error::LaurusError;
use crate::field;
use crate::field::FieldOption;
use crate::names;
use crate::names::FieldMap;
use crate::numbers;
use crate::numbers::{Forms, Number};
use crate::outside;

verus! {

// ---------------------------------------------------------------------------
// Tokens by term
// ---------------------------------------------------------------------------

/// Whether no token before `k` has the text of token `k`.
pub open spec fn is_first(tokens: Seq<TokenView>, k: int) -> bool {
    forall|j: int| 0 <= j < k ==> #[trigger] tokens[j].text != tokens[k].text
}

/// The first tokens of each text among the first `n`.
pub open spec fn firsts(tokens: Seq<TokenView>, n: int) -> Seq<int>
    decreases n,
{
    if n <= 0 {
        Seq::empty()
    } else if is_first(tokens, n - 1) {
        firsts(tokens, n - 1).push(n - 1)
    } else {
        firsts(tokens, n - 1)
    }
}

/// How many of the first `n` tokens have this text.
pub open spec fn occurrences(tokens: Seq<TokenView>, text: Seq<char>, n: int) -> nat
    decreases n,
{
    if n <= 0 {
        0
    } else if tokens[n - 1].text == text {
        occurrences(tokens, text, n - 1) + 1
    } else {
        occurrences(tokens, text, n - 1)
    }
}

/// The term of a token: it stands where the token stands, and is as frequent as
/// the text.
pub open spec fn term_of(tokens: Seq<TokenView>, k: int) -> TermView {
    TermView {
        term: tokens[k].text,
        position: tokens[k].position as u32,
        frequency: occurrences(tokens, tokens[k].text, tokens.len() as int) as u32,
        offset: (tokens[k].start_offset, tokens[k].end_offset),
    }
}

/// The terms of tokens: one for each text, in the order of their first tokens.
pub open spec fn terms_of_tokens(tokens: Seq<TokenView>) -> Seq<TermView> {
    firsts(tokens, tokens.len() as int).map_values(|k: int| term_of(tokens, k))
}

pub proof fn lemma_firsts(tokens: Seq<TokenView>, n: int)
    requires
        0 <= n <= tokens.len(),
    ensures
        firsts(tokens, n).len() <= n,
        forall|i: int| 0 <= i < firsts(tokens, n).len() ==> 0 <= #[trigger] firsts(tokens, n)[i] < n,
    decreases n,
{
    if n > 0 {
        lemma_firsts(tokens, n - 1);
    }
}

/// Whether `slots` gives, for each text of the first `k` tokens, the number of its
/// first token among the first tokens, and `counts` how often it occurred.
spec fn counted(
    tokens: Seq<TokenView>,
    k: int,
    slots: Seq<(Seq<char>, usize)>,
    counts: Seq<usize>,
) -> bool {
    let f = firsts(tokens, k);
    &&& names::names_ascend(slots)
    &&& counts.len() == f.len()
    &&& forall|i: int|
        0 <= i < f.len() ==> #[trigger] counts[i] == occurrences(tokens, tokens[f[i]].text, k)
    &&& forall|i: int|
        0 <= i < f.len() ==> names::value_of(slots, tokens[#[trigger] f[i]].text) == Some(i as usize)
    &&& forall|t: Seq<char>| #[trigger]
        names::value_of(slots, t) is Some ==> names::value_of(slots, t)->Some_0 < f.len()
            && tokens[f[names::value_of(slots, t)->Some_0 as int]].text == t
    &&& forall|j: int|
        0 <= j < k ==> names::value_of(slots, #[trigger] tokens[j].text) is Some
}

proof fn lemma_occurrences_bound(tokens: Seq<TokenView>, text: Seq<char>, n: int)
    requires
        0 <= n <= tokens.len(),
    ensures
        occurrences(tokens, text, n) <= n,
        (forall|j: int| 0 <= j < n ==> #[trigger] tokens[j].text != text) ==> occurrences(
            tokens,
            text,
            n,
        ) == 0,
    decreases n,
{
    if n > 0 {
        lemma_occurrences_bound(tokens, text, n - 1);
    }
}

/// Groups tokens by their text.
pub fn tokens_to_analyzed_terms(tokens: Vec<Token>) -> (r: Vec<AnalyzedTerm>)
    ensures
        analyzed::term_views(r@) == terms_of_tokens(analysis::token_views(tokens@)),
{
    let ghost views = analysis::token_views(tokens@);
    let n: usize = tokens.len();
    let mut slots: FieldMap<usize> = FieldMap::new();
    let mut counts: Vec<usize> = Vec::new();
    let mut starts: Vec<usize> = Vec::new();
    let mut k: usize = 0;
    while k < n
        invariant
            n == tokens@.len(),
            k <= n,
            views == analysis::token_views(tokens@),
            counted(views, k as int, slots@, counts@),
            starts@.len() == firsts(views, k as int).len(),
            starts@.len() <= k,
            forall|i: int| 0 <= i < starts@.len() ==> #[trigger] starts@[i] == firsts(views, k as int)[i],
        decreases n - k,
    {
        let ghost f = firsts(views, k as int);
        let ghost old_slots = slots@;
        let ghost old_counts = counts@;
        proof {
            lemma_firsts(views, k as int);
            lemma_firsts(views, k + 1);
        }
        let text: &str = tokens[k].text.as_str();
        assert(text@ == views[k as int].text);
        match slots.get(text) {
            Some(slot) => {
                let s: usize = *slot;
                proof {
                    let t = views[k as int].text;
                    assert(names::value_of(old_slots, t) == Some(s));
                    assert(views[f[s as int]].text == t);
                    assert(!is_first(views, k as int));
                    assert(firsts(views, k + 1) == f);
                    lemma_occurrences_bound(views, t, k as int);
                    assert(counts@[s as int] == occurrences(views, t, k as int));
                }
                let c: usize = counts[s];
                counts.set(s, c + 1);
                proof {
                    let t = views[k as int].text;
                    assert forall|i: int| 0 <= i < f.len() implies #[trigger] counts@[i]
                        == occurrences(views, views[f[i]].text, k + 1) by {
                        if i != s {
                            assert(old_counts[i] == occurrences(views, views[f[i]].text, k as int));
                            assert(names::value_of(old_slots, views[f[i]].text) == Some(i as usize));
                            assert(views[f[i]].text != t);
                        }
                    }
                }
            },
            None => {
                let slot: usize = counts.len();
                proof {
                    let t = views[k as int].text;
                    assert(names::value_of(old_slots, t) is None);
                    assert(is_first(views, k as int)) by {
                        assert forall|j: int| 0 <= j < k implies #[trigger] views[j].text != t by {
                            assert(names::value_of(old_slots, views[j].text) is Some);
                        }
                    }
                    assert(firsts(views, k + 1) == f.push(k as int));
                    lemma_occurrences_bound(views, t, k as int);
                    names::lemma_with_value(old_slots, t, slot);
                }
                slots.insert(tokens[k].text.clone(), slot);
                counts.push(1);
                starts.push(k);
                proof {
                    let t = views[k as int].text;
                    let g = firsts(views, k + 1);
                    assert(slots@ == names::with_value(old_slots, t, slot));
                    assert forall|i: int| 0 <= i < g.len() implies #[trigger] counts@[i]
                        == occurrences(views, views[g[i]].text, k + 1) by {
                        if i < f.len() {
                            assert(g[i] == f[i]);
                            assert(old_counts[i] == occurrences(views, views[f[i]].text, k as int));
                            assert(names::value_of(old_slots, views[f[i]].text) == Some(i as usize));
                        }
                    }
                    assert forall|i: int| 0 <= i < g.len() implies names::value_of(
                        slots@,
                        views[#[trigger] g[i]].text,
                    ) == Some(i as usize) by {
                        if i < f.len() {
                            assert(g[i] == f[i]);
                            assert(names::value_of(old_slots, views[f[i]].text) == Some(i as usize));
                        }
                    }
                    assert forall|u: Seq<char>| #[trigger]
                        names::value_of(slots@, u) is Some implies names::value_of(slots@, u)->Some_0
                        < g.len() && views[g[names::value_of(slots@, u)->Some_0 as int]].text == u by {
                        if u != t {
                            assert(names::value_of(slots@, u) == names::value_of(old_slots, u));
                        }
                    }
                    assert forall|j: int| 0 <= j < k + 1 implies names::value_of(
                        slots@,
                        #[trigger] views[j].text,
                    ) is Some by {
                        if views[j].text != t {
                            assert(names::value_of(slots@, views[j].text) == names::value_of(
                                old_slots,
                                views[j].text,
                            ));
                        }
                    }
                }
            },
        }
        k = k + 1;
    }
    let mut r: Vec<AnalyzedTerm> = Vec::new();
    let m: usize = starts.len();
    let mut i: usize = 0;
    while i < m
        invariant
            n == tokens@.len(),
            m == starts@.len(),
            i <= m,
            views == analysis::token_views(tokens@),
            counted(views, n as int, slots@, counts@),
            starts@.len() == firsts(views, n as int).len(),
            forall|i: int| 0 <= i < starts@.len() ==> #[trigger] starts@[i] == firsts(views, n as int)[i],
            r@.len() == i,
            forall|j: int|
                0 <= j < i ==> #[trigger] r@[j]@ == term_of(views, firsts(views, n as int)[j]),
        decreases m - i,
    {
        proof {
            lemma_firsts(views, n as int);
        }
        let at: usize = starts[i];
        assert(at == firsts(views, n as int)[i as int]);
        let t: &Token = &tokens[at];
        assert(t@ == views[at as int]);
        r.push(
            AnalyzedTerm {
                term: t.text.clone(),
                position: t.position as u32,
                frequency: counts[i] as u32,
                offset: (t.start_offset, t.end_offset),
            },
        );
        assert(r@[i as int]@ == term_of(views, firsts(views, n as int)[i as int]));
        i = i + 1;
    }
    assert(analyzed::term_views(r@) =~= terms_of_tokens(views));
    r
}

/// First tokens have different texts, and between them every text.
pub proof fn lemma_firsts_differ(tokens: Seq<TokenView>, n: int)
    requires
        0 <= n <= tokens.len(),
    ensures
        forall|i: int, j: int|
            0 <= i < j < firsts(tokens, n).len() ==> tokens[#[trigger] firsts(tokens, n)[i]].text
                != tokens[#[trigger] firsts(tokens, n)[j]].text,
        forall|k: int|
            0 <= k < n ==> has_text(tokens, firsts(tokens, n), #[trigger] tokens[k].text),
    decreases n,
{
    if n > 0 {
        let f = firsts(tokens, n - 1);
        let g = firsts(tokens, n);
        lemma_firsts_differ(tokens, n - 1);
        lemma_firsts(tokens, n - 1);
        if is_first(tokens, n - 1) {
            assert forall|i: int, j: int| 0 <= i < j < g.len() implies tokens[#[trigger] g[i]].text
                != tokens[#[trigger] g[j]].text by {
                assert(g[i] == f[i]);
                if j < f.len() {
                    assert(g[j] == f[j]);
                }
            }
            assert(tokens[g[g.len() - 1]].text == tokens[n - 1].text);
        }
        assert forall|k: int| 0 <= k < n implies has_text(tokens, g, #[trigger] tokens[k].text) by {
            if k < n - 1 || !is_first(tokens, n - 1) {
                if k == n - 1 {
                    let m = choose|m: int| 0 <= m < k && #[trigger] tokens[m].text == tokens[k].text;
                    assert(has_text(tokens, f, tokens[m].text));
                }
                assert(has_text(tokens, f, tokens[k].text));
                let i = choose|i: int| 0 <= i < f.len() && tokens[#[trigger] f[i]].text == tokens[k].text;
                assert(g[i] == f[i]);
            }
        }
    }
}

/// Whether one of these tokens has the text.
pub open spec fn has_text(tokens: Seq<TokenView>, f: Seq<int>, text: Seq<char>) -> bool {
    exists|i: int| 0 <= i < f.len() && tokens[#[trigger] f[i]].text == text
}

/// How often the texts of these tokens occur among the first `n`, all together.
spec fn all_occurrences(tokens: Seq<TokenView>, f: Seq<int>, n: int) -> nat
    decreases f.len(),
{
    if f.len() == 0 {
        0
    } else {
        all_occurrences(tokens, f.drop_last(), n) + occurrences(tokens, tokens[f.last()].text, n)
    }
}

proof fn lemma_one_more(tokens: Seq<TokenView>, f: Seq<int>, n: int)
    requires
        0 < n <= tokens.len(),
        forall|i: int, j: int|
            0 <= i < j < f.len() ==> tokens[#[trigger] f[i]].text != tokens[#[trigger] f[j]].text,
    ensures
        all_occurrences(tokens, f, n) == all_occurrences(tokens, f, n - 1) + if has_text(
            tokens,
            f,
            tokens[n - 1].text,
        ) {
            1nat
        } else {
            0nat
        },
    decreases f.len(),
{
    if f.len() > 0 {
        let g = f.drop_last();
        let t = tokens[n - 1].text;
        lemma_one_more(tokens, g, n);
        if tokens[f.last()].text == t {
            assert(f[f.len() - 1] == f.last());
            assert(has_text(tokens, f, t));
            if has_text(tokens, g, t) {
                let i = choose|i: int| 0 <= i < g.len() && tokens[#[trigger] g[i]].text == t;
                assert(f[i] == g[i]);
            }
        } else {
            if has_text(tokens, f, t) {
                let i = choose|i: int| 0 <= i < f.len() && tokens[#[trigger] f[i]].text == t;
                assert(g[i] == f[i]);
            }
            if has_text(tokens, g, t) {
                let i = choose|i: int| 0 <= i < g.len() && tokens[#[trigger] g[i]].text == t;
                assert(f[i] == g[i]);
            }
        }
    }
}

proof fn lemma_all_occurrences(tokens: Seq<TokenView>, n: int)
    requires
        0 <= n <= tokens.len(),
    ensures
        all_occurrences(tokens, firsts(tokens, n), n) == n,
    decreases n,
{
    if n > 0 {
        let f = firsts(tokens, n - 1);
        let t = tokens[n - 1].text;
        lemma_all_occurrences(tokens, n - 1);
        lemma_firsts(tokens, n - 1);
        lemma_firsts_differ(tokens, n - 1);
        lemma_one_more(tokens, f, n);
        if is_first(tokens, n - 1) {
            if has_text(tokens, f, t) {
                let i = choose|i: int| 0 <= i < f.len() && tokens[#[trigger] f[i]].text == t;
                assert(tokens[f[i]].text == t);
            }
            lemma_occurrences_bound(tokens, t, n - 1);
            assert(f.push(n - 1).drop_last() =~= f);
        } else {
            let k = choose|k: int| 0 <= k < n - 1 && #[trigger] tokens[k].text == t;
            assert(has_text(tokens, f, tokens[k].text));
        }
    } else {
        assert(firsts(tokens, n).len() == 0);
    }
}

proof fn lemma_frequencies(tokens: Seq<TokenView>, f: Seq<int>)
    requires
        tokens.len() <= u64::MAX,
    ensures
        analyzed::length_of(f.map_values(|k: int| term_of(tokens, k))) == all_occurrences(
            tokens,
            f,
            tokens.len() as int,
        ) % 0x1_0000_0000,
    decreases f.len(),
{
    let terms = f.map_values(|k: int| term_of(tokens, k));
    if f.len() > 0 {
        lemma_frequencies(tokens, f.drop_last());
        assert(terms.drop_last() =~= f.drop_last().map_values(|k: int| term_of(tokens, k)));
        lemma_occurrences_bound(tokens, tokens[f.last()].text, tokens.len() as int);
        let c = occurrences(tokens, tokens[f.last()].text, tokens.len() as int) as u64;
        assert(c as u32 == c % 0x1_0000_0000) by (bit_vector);
        assert(terms.last().frequency == c as u32);
    }
}

/// A text is as long as it has tokens.
pub proof fn lemma_length_of_text(tokens: Seq<TokenView>)
    requires
        tokens.len() <= u32::MAX,
    ensures
        analyzed::length_of(terms_of_tokens(tokens)) == tokens.len(),
{
    let f = firsts(tokens, tokens.len() as int);
    lemma_all_occurrences(tokens, tokens.len() as int);
    lemma_frequencies(tokens, f);
}

// ---------------------------------------------------------------------------
// Values by their text
// ---------------------------------------------------------------------------

/// The single values that a value is made of.
pub open spec fn elements(v: DataView) -> Seq<DataView> {
    match v {
        DataView::Int64Array(a) => a.map_values(|n: i64| DataView::Int64(n)),
        DataView::Float64Array(a) => a.map_values(|n: u64| DataView::Float64(n)),
        DataView::GeoArray(a) => a.map_values(|p: data::GeoPoint| DataView::Geo(p)),
        DataView::GeoEcefArray(a) => a.map_values(|p: data::GeoEcefPoint| DataView::GeoEcef(p)),
        DataView::DateTimeArray(a) => a.map_values(|t: (i64, u32)| DataView::DateTime(t)),
        DataView::BoolArray(a) => a.map_values(|b: bool| DataView::Bool(b)),
        DataView::Bool(_)
        | DataView::Int64(_)
        | DataView::Float64(_)
        | DataView::DateTime(_)
        | DataView::Geo(_)
        | DataView::GeoEcef(_) => seq![v],
        _ => Seq::empty(),
    }
}

/// Texts with a comma between each two.
pub open spec fn joined(parts: Seq<Seq<char>>) -> Seq<char>
    decreases parts.len(),
{
    if parts.len() == 0 {
        Seq::empty()
    } else if parts.len() == 1 {
        parts[0]
    } else {
        joined(parts.drop_last()) + seq![','] + parts.last()
    }
}

/// Whether each part is a text that `forms` may give for the number.
pub open spec fn gives_parts<F: Fn(Number) -> Forms>(
    forms: F,
    numbers: Seq<u64>,
    parts: Seq<Seq<char>>,
) -> bool {
    parts.len() == numbers.len() && forall|i: int|
        0 <= i < parts.len() ==> numbers::gives_text(
            forms,
            Number::Float { bits: numbers[i] },
            #[trigger] parts[i],
        )
}

/// Whether `t` is made of the texts that `forms` may give for the numbers, with
/// commas between them.
pub open spec fn joins<F: Fn(Number) -> Forms>(forms: F, numbers: Seq<u64>, t: Seq<char>) -> bool {
    exists|parts: Seq<Seq<char>>| #[trigger]
        gives_parts(forms, numbers, parts) && t == joined(parts)
}

/// Whether `t` is a text of a single value: of a point the text of its
/// coordinates, with commas between them.
pub open spec fn spelled<F: Fn(Number) -> Forms>(forms: F, e: DataView, t: Seq<char>) -> bool {
    match e {
        DataView::Int64(n) => t == numbers::integer_text(n),
        DataView::Float64(bits) => numbers::gives_text(forms, Number::Float { bits }, t),
        DataView::Bool(b) => t == numbers::bool_text(b),
        DataView::DateTime(i) => t == outside::rfc3339_text(i),
        DataView::Geo(p) => joins(forms, seq![p.lat, p.lon], t),
        DataView::GeoEcef(p) => joins(forms, seq![p.x, p.y, p.z], t),
        _ => false,
    }
}

/// Whether `p` is the point of a single value.
pub open spec fn pointed<F: Fn(Number) -> Forms>(forms: F, e: DataView, p: Seq<u64>) -> bool {
    match e {
        DataView::Int64(value) => p.len() == 1 && numbers::gives_bits(
            forms,
            Number::Integer { value },
            p[0],
        ),
        DataView::Float64(bits) => p == seq![bits],
        DataView::DateTime(t) => p.len() == 1 && numbers::gives_bits(
            forms,
            Number::Micros { micros: data::instant_micros(t) as i64 },
            p[0],
        ),
        DataView::Geo(g) => p == seq![g.lat, g.lon],
        DataView::GeoEcef(g) => p == seq![g.x, g.y, g.z],
        _ => p.len() == 0,
    }
}

/// Whether a value has points beside its terms.
pub open spec fn has_points(v: DataView) -> bool {
    !(v is Bool) && !(v is BoolArray)
}

/// How many bytes a text takes.
pub open spec fn byte_len(t: Seq<char>) -> nat {
    encode_utf8(t).len()
}

/// Where text `k` starts when the texts stand one behind another with one byte
/// between each two.
pub open spec fn start_of(texts: Seq<Seq<char>>, k: int) -> nat
    decreases k,
{
    if k <= 0 {
        0
    } else {
        start_of(texts, k - 1) + byte_len(texts[k - 1]) + 1
    }
}

/// Whether offsets can address every text.
pub open spec fn fits(texts: Seq<Seq<char>>) -> bool {
    forall|k: int|
        0 <= k < texts.len() ==> #[trigger] start_of(texts, k) + byte_len(texts[k]) <= usize::MAX
}

/// The term of each text.
pub open spec fn listed(texts: Seq<Seq<char>>) -> Seq<TermView> {
    Seq::new(
        texts.len(),
        |k: int|
            TermView {
                term: texts[k],
                position: k as u32,
                frequency: 1,
                offset: (
                    start_of(texts, k) as usize,
                    (start_of(texts, k) + byte_len(texts[k])) as usize,
                ),
            },
    )
}

/// Whether the texts are those of the first single values.
pub open spec fn spelled_all<F: Fn(Number) -> Forms>(
    forms: F,
    es: Seq<DataView>,
    texts: Seq<Seq<char>>,
) -> bool {
    texts.len() <= es.len() && forall|i: int|
        0 <= i < texts.len() ==> spelled(forms, es[i], #[trigger] texts[i])
}

/// What is indexed of a field.
pub struct Entry {
    pub terms: Option<Seq<TermView>>,
    pub points: Option<Seq<Seq<u64>>>,
}

/// Whether `out` is what is indexed of a number, a truth value, an instant or a
/// point, or of several.
pub open spec fn value_entry<F: Fn(Number) -> Forms>(
    forms: F,
    v: DataView,
    out: Result<Entry, LaurusError>,
) -> bool {
    let es = elements(v);
    match out {
        Ok(e) => {
            &&& exists|texts: Seq<Seq<char>>| #[trigger]
                spelled_all(forms, es, texts) && texts.len() == es.len() && fits(texts) && e.terms
                    == Some(listed(texts))
            &&& match e.points {
                Some(ps) => has_points(v) && ps.len() == es.len() && forall|i: int|
                    0 <= i < ps.len() ==> pointed(forms, es[i], #[trigger] ps[i]),
                None => !has_points(v),
            }
        },
        Err(e) => e == LaurusError::FieldSize && exists|texts: Seq<Seq<char>>| #[trigger]
            spelled_all(forms, es, texts) && !fits(texts),
    }
}

/// A term moved by `base` positions.
pub open spec fn moved(t: TermView, base: u32) -> TermView {
    TermView { position: saturated(t.position as int + base as int), ..t }
}

/// A number, or the largest that fits.
pub open spec fn saturated(n: int) -> u32 {
    if n > u32::MAX {
        u32::MAX
    } else {
        n as u32
    }
}

/// The terms of the first `k` texts of a field, each text behind the one before it
/// at a distance of `gap` positions, and the position behind them.
pub open spec fn text_terms<A: Analyzer>(
    analyzer: A,
    name: Seq<char>,
    gap: u32,
    texts: Seq<Seq<char>>,
    k: int,
) -> Result<(Seq<TermView>, u32), LaurusError>
    decreases k,
{
    if k <= 0 {
        Ok((Seq::empty(), 0u32))
    } else {
        match text_terms(analyzer, name, gap, texts, k - 1) {
            Err(e) => Err(e),
            Ok((terms, end)) => match analyzer.tokens(name, texts[k - 1]) {
                Err(e) => Err(e),
                Ok(tokens) => {
                    let base = if k > 1 {
                        saturated(end as int + gap as int)
                    } else {
                        end
                    };
                    Ok(
                        (
                            terms + terms_of_tokens(tokens).map_values(|t: TermView| moved(t, base)),
                            saturated(base as int + (tokens.len() as u32) as int),
                        ),
                    )
                },
            },
        }
    }
}

/// Whether `out` is what is indexed of a field with this value.
pub open spec fn entry_of<A: Analyzer, F: Fn(Number) -> Forms>(
    analyzer: A,
    forms: F,
    name: Seq<char>,
    gap: u32,
    v: DataView,
    out: Result<Entry, LaurusError>,
) -> bool {
    match v {
        DataView::Text(s) => out == match analyzer.tokens(name, s) {
            Ok(t) => Ok::<Entry, LaurusError>(
                Entry { terms: Some(terms_of_tokens(t)), points: None },
            ),
            Err(e) => Err(e),
        },
        DataView::TextArray(a) => out == match text_terms(analyzer, name, gap, a, a.len() as int) {
            Ok((t, _)) => Ok::<Entry, LaurusError>(Entry { terms: Some(t), points: None }),
            Err(e) => Err(e),
        },
        DataView::Bytes(_, _) | DataView::Vector(_) | DataView::Null => out == Ok::<
            Entry,
            LaurusError,
        >(Entry { terms: None, points: None }),
        _ => value_entry(forms, v, out),
    }
}

/// The text of numbers, with commas between them.
fn join_numbers<F: Fn(Number) -> Forms>(all: &[u64], forms: &F) -> (r: String)
    requires
        all@.len() > 0,
        forall|n: Number| call_requires(*forms, (n,)),
    ensures
        joins(*forms, all@, r@),
{
    let n: usize = all.len();
    let f: Forms = (*forms)(Number::Float { bits: all[0] });
    assert(numbers::gives(*forms, Number::Float { bits: all@[0] }, f));
    let mut r: String = f.text;
    let ghost mut parts: Seq<Seq<char>> = seq![r@];
    let mut i: usize = 1;
    while i < n
        invariant
            1 <= i <= n,
            n == all@.len(),
            parts.len() == i,
            r@ == joined(parts),
            forall|n: Number| call_requires(*forms, (n,)),
            forall|j: int|
                0 <= j < i ==> numbers::gives_text(
                    *forms,
                    Number::Float { bits: all@[j] },
                    #[trigger] parts[j],
                ),
        decreases n - i,
    {
        let f: Forms = (*forms)(Number::Float { bits: all[i] });
        assert(numbers::gives(*forms, Number::Float { bits: all@[i as int] }, f));
        proof {
            reveal_strlit(",");
            assert(","@ =~= seq![',']);
            let more = parts.push(f.text@);
            assert(more.drop_last() =~= parts);
            parts = more;
        }
        r.append(",");
        r.append(f.text.as_str());
        i = i + 1;
    }
    assert(gives_parts(*forms, all@, parts));
    r
}

/// Whether a value is a number, a truth value, an instant or a point, or several.
pub open spec fn is_plain(v: DataView) -> bool {
    match v {
        DataView::Null
        | DataView::Text(_)
        | DataView::TextArray(_)
        | DataView::Bytes(_, _)
        | DataView::Vector(_) => false,
        _ => true,
    }
}

fn element_count(value: &DataValue) -> (r: usize)
    requires
        is_plain(value@),
    ensures
        r == elements(value@).len(),
{
    match value {
        DataValue::Int64Array(a) => a.len(),
        DataValue::Float64Array(a) => a.len(),
        DataValue::GeoArray(a) => a.len(),
        DataValue::GeoEcefArray(a) => a.len(),
        DataValue::DateTimeArray(a) => a.len(),
        DataValue::BoolArray(a) => a.len(),
        _ => 1,
    }
}

fn element(value: &DataValue, i: usize) -> (r: DataValue)
    requires
        is_plain(value@),
        i < elements(value@).len(),
    ensures
        r@ == elements(value@)[i as int],
{
    match value {
        DataValue::Int64Array(a) => DataValue::Int64(a[i]),
        DataValue::Float64Array(a) => DataValue::Float64(a[i]),
        DataValue::GeoArray(a) => DataValue::Geo(a[i]),
        DataValue::GeoEcefArray(a) => DataValue::GeoEcef(a[i]),
        DataValue::DateTimeArray(a) => DataValue::DateTime(a[i]),
        DataValue::BoolArray(a) => DataValue::Bool(a[i]),
        other => other.clone(),
    }
}

/// The text and the point of a single value.
fn spell<F: Fn(Number) -> Forms>(value: &DataValue, forms: &F) -> (r: (String, Vec<u64>))
    requires
        value@ is Bool || value@ is Int64 || value@ is Float64 || value@ is DateTime || value@ is Geo
            || value@ is GeoEcef,
        forall|n: Number| call_requires(*forms, (n,)),
    ensures
        spelled(*forms, value@, r.0@),
        pointed(*forms, value@, r.1@),
{
    match value {
        DataValue::Int64(n) => {
            let value: i64 = *n;
            let f: Forms = (*forms)(Number::Integer { value });
            assert(numbers::gives(*forms, Number::Integer { value }, f));
            (numbers::integer_to_text(value), vec![f.bits])
        },
        DataValue::Float64(b) => {
            let bits: u64 = *b;
            let f: Forms = (*forms)(Number::Float { bits });
            assert(numbers::gives(*forms, Number::Float { bits }, f));
            let p: Vec<u64> = vec![bits];
            assert(p@ =~= seq![bits]);
            (f.text, p)
        },
        DataValue::DateTime(t) => {
            let (secs, nanos) = t.parts();
            (outside::to_rfc3339(secs, nanos), vec![datetime::datetime_to_point(t, forms)])
        },
        DataValue::Geo(g) => {
            let p: Vec<u64> = vec![g.lat, g.lon];
            assert(p@ =~= seq![g.lat, g.lon]);
            (join_numbers(p.as_slice(), forms), p)
        },
        DataValue::GeoEcef(g) => {
            let p: Vec<u64> = vec![g.x, g.y, g.z];
            assert(p@ =~= seq![g.x, g.y, g.z]);
            (join_numbers(p.as_slice(), forms), p)
        },
        DataValue::Bool(b) => (numbers::bool_to_text(*b), Vec::new()),
        _ => (String::new(), Vec::new()),
    }
}

/// The coordinates of each point.
pub open spec fn point_views(s: Seq<Vec<u64>>) -> Seq<Seq<u64>> {
    s.map_values(|p: Vec<u64>| p@)
}

proof fn lemma_start_of_prefix(a: Seq<Seq<char>>, b: Seq<Seq<char>>, k: int)
    requires
        0 <= k <= a.len() <= b.len(),
        forall|i: int| 0 <= i < a.len() ==> #[trigger] a[i] == b[i],
    ensures
        start_of(a, k) == start_of(b, k),
    decreases k,
{
    if k > 0 {
        lemma_start_of_prefix(a, b, k - 1);
    }
}

/// What is indexed of a field.
pub type FieldEntry = (Option<Vec<AnalyzedTerm>>, Option<Vec<Vec<u64>>>);

/// What an entry holds.
pub open spec fn entry_view(e: FieldEntry) -> Entry {
    Entry {
        terms: match e.0 {
            Some(t) => Some(analyzed::term_views(t@)),
            None => None,
        },
        points: match e.1 {
            Some(p) => Some(point_views(p@)),
            None => None,
        },
    }
}

/// What came of a field.
pub open spec fn entry_shown(r: Result<FieldEntry, LaurusError>) -> Result<Entry, LaurusError> {
    match r {
        Ok(e) => Ok(entry_view(e)),
        Err(e) => Err(e),
    }
}

/// What is indexed of numbers, truth values, instants and points.
#[verifier::rlimit(40)]
fn index_value<F: Fn(Number) -> Forms>(value: &DataValue, forms: &F) -> (r: Result<
    FieldEntry,
    LaurusError,
>)
    requires
        is_plain(value@),
        forall|n: Number| call_requires(*forms, (n,)),
    ensures
        value_entry(*forms, value@, entry_shown(r)),
{
    let ghost es = elements(value@);
    let n: usize = element_count(value);
    let mut terms: Vec<AnalyzedTerm> = Vec::new();
    let mut points: Vec<Vec<u64>> = Vec::new();
    let ghost mut texts: Seq<Seq<char>> = Seq::empty();
    let mut end: usize = 0;
    let mut i: usize = 0;
    while i < n
        invariant
            n == es.len(),
            es == elements(value@),
            is_plain(value@),
            i <= n,
            forall|n: Number| call_requires(*forms, (n,)),
            texts.len() == i,
            spelled_all(*forms, es, texts),
            fits(texts),
            i > 0 ==> end == start_of(texts, i - 1) + byte_len(texts[i - 1]),
            i == 0 ==> end == 0,
            analyzed::term_views(terms@) == listed(texts),
            points@.len() == i,
            forall|j: int| 0 <= j < i ==> pointed(*forms, es[j], #[trigger] points@[j]@),
        decreases n - i,
    {
        let e: DataValue = element(value, i);
        let (text, point) = spell(&e, forms);
        let len: usize = text.as_str().as_bytes().len();
        let ghost before = texts;
        proof {
            texts = texts.push(text@);
            assert forall|k: int| 0 <= k <= i implies #[trigger] start_of(before, k) == start_of(
                texts,
                k,
            ) by {
                lemma_start_of_prefix(before, texts, k);
            }
            assert(spelled_all(*forms, es, texts));
            if i > 0 {
                assert(start_of(texts, i as int) == start_of(texts, i - 1) + byte_len(texts[i - 1]) + 1);
            }
        }
        let start: usize = if i == 0 {
            0
        } else {
            match end.checked_add(1) {
                Some(s) => s,
                None => {
                    assert(!(start_of(texts, i as int) + byte_len(texts[i as int]) <= usize::MAX));
                    assert(!fits(texts));
                    return Err(LaurusError::FieldSize);
                },
            }
        };
        assert(start == start_of(texts, i as int));
        end = match start.checked_add(len) {
            Some(s) => s,
            None => {
                assert(!(start_of(texts, i as int) + byte_len(texts[i as int]) <= usize::MAX));
                assert(!fits(texts));
                return Err(LaurusError::FieldSize);
            },
        };
        proof {
            assert(fits(texts)) by {
                assert forall|k: int| 0 <= k < texts.len() implies #[trigger] start_of(texts, k)
                    + byte_len(texts[k]) <= usize::MAX by {
                    if k < i {
                        assert(start_of(before, k) + byte_len(before[k]) <= usize::MAX);
                    }
                }
            }
        }
        let ghost old_terms = terms@;
        terms.push(
            AnalyzedTerm { term: text, position: i as u32, frequency: 1, offset: (start, end) },
        );
        points.push(point);
        proof {
            let a = analyzed::term_views(terms@);
            let b = listed(texts);
            assert(analyzed::term_views(old_terms).len() == listed(before).len());
            assert(a.last() == b.last());
            assert forall|k: int| 0 <= k < a.len() implies a[k] == b[k] by {
                if k < i {
                    assert(analyzed::term_views(old_terms)[k] == listed(before)[k]);
                    assert(a[k] == listed(before)[k]);
                    assert(start_of(before, k) == start_of(texts, k));
                }
            }
            assert(a =~= b);
        }
        i = i + 1;
    }
    match value {
        DataValue::Bool(_) | DataValue::BoolArray(_) => Ok((Some(terms), None)),
        _ => Ok((Some(terms), Some(points))),
    }
}

proof fn lemma_text_terms_fail<A: Analyzer>(
    analyzer: A,
    name: Seq<char>,
    gap: u32,
    texts: Seq<Seq<char>>,
    k: int,
    n: int,
)
    requires
        0 <= k <= n,
        text_terms(analyzer, name, gap, texts, k) is Err,
    ensures
        text_terms(analyzer, name, gap, texts, n) == text_terms(analyzer, name, gap, texts, k),
    decreases n,
{
    if k < n {
        lemma_text_terms_fail(analyzer, name, gap, texts, k, n - 1);
    }
}

/// What is indexed of several texts.
fn index_texts<A: Analyzer>(analyzer: &A, name: &str, gap: u32, texts: &Vec<String>) -> (r: Result<
    Vec<AnalyzedTerm>,
    LaurusError,
>)
    ensures
        ({
            let t = data::texts(texts@);
            match text_terms(*analyzer, name@, gap, t, t.len() as int) {
                Ok((terms, _)) => r is Ok && analyzed::term_views(r->Ok_0@) == terms,
                Err(e) => r == Err::<Vec<AnalyzedTerm>, LaurusError>(e),
            }
        }),
{
    let ghost views = data::texts(texts@);
    let n: usize = texts.len();
    let mut terms: Vec<AnalyzedTerm> = Vec::new();
    let mut base: u32 = 0;
    let mut i: usize = 0;
    assert(analyzed::term_views(terms@) =~= Seq::empty());
    while i < n
        invariant
            n == texts@.len(),
            views == data::texts(texts@),
            i <= n,
            text_terms(*analyzer, name@, gap, views, i as int) == Ok::<
                (Seq<TermView>, u32),
                LaurusError,
            >((analyzed::term_views(terms@), base)),
        decreases n - i,
    {
        if i > 0 {
            base = base.saturating_add(gap);
        }
        assert(views[i as int] == texts@[i as int]@);
        let tokens: Vec<Token> = match analyzer.analyze_field(name, texts[i].as_str()) {
            Ok(t) => t,
            Err(e) => {
                proof {
                    lemma_text_terms_fail(*analyzer, name@, gap, views, i + 1, n as int);
                }
                return Err(e);
            },
        };
        let ghost token_views = analysis::token_views(tokens@);
        let count: u32 = tokens.len() as u32;
        let mut some: Vec<AnalyzedTerm> = tokens_to_analyzed_terms(tokens);
        let ghost before = analyzed::term_views(terms@);
        let ghost grouped = terms_of_tokens(token_views);
        let ghost shifted = grouped.map_values(|t: TermView| moved(t, base));
        let m: usize = some.len();
        let mut j: usize = 0;
        while j < m
            invariant
                m == some@.len(),
                m == grouped.len(),
                j <= m,
                analyzed::term_views(some@) == grouped,
                shifted == grouped.map_values(|t: TermView| moved(t, base)),
                analyzed::term_views(terms@) == before + shifted.take(j as int),
            decreases m - j,
        {
            let t: &AnalyzedTerm = &some[j];
            assert(t@ == grouped[j as int]);
            let ghost old_terms = terms@;
            terms.push(
                AnalyzedTerm {
                    term: t.term.clone(),
                    position: t.position.saturating_add(base),
                    frequency: t.frequency,
                    offset: t.offset,
                },
            );
            proof {
                assert(terms@.last()@ == moved(grouped[j as int], base));
                assert(shifted[j as int] == moved(grouped[j as int], base));
                assert(analyzed::term_views(terms@) =~= analyzed::term_views(old_terms).push(
                    shifted[j as int],
                ));
                assert(before + shifted.take(j + 1) =~= (before + shifted.take(j as int)).push(
                    shifted[j as int],
                ));
            }
            j = j + 1;
        }
        proof {
            assert(shifted.take(m as int) =~= shifted);
        }
        base = base.saturating_add(count);
        i = i + 1;
    }
    Ok(terms)
}

// ---------------------------------------------------------------------------
// Documents
// ---------------------------------------------------------------------------

/// Whether a field is indexed and whether it is stored; `None` where it is dropped.
pub open spec fn flags_of(fields: Seq<(Seq<char>, FieldOption)>, name: Seq<char>) -> Option<
    (bool, bool),
> {
    match names::value_of(fields, name) {
        Some(o) => Some((o.is_indexed(), o.is_stored())),
        None => if (name.len() > 0 && name[0] == '_') || fields.len() == 0 {
            Some((true, true))
        } else {
            None
        },
    }
}

/// Without a schema every field is indexed and stored.
pub proof fn lemma_without_schema(name: Seq<char>)
    ensures
        flags_of(Seq::empty(), name) == Some((true, true)),
{
    assert(!names::has_name(Seq::<(Seq<char>, FieldOption)>::empty(), name));
}

/// A field whose name starts with an underscore needs no declaration.
pub proof fn lemma_reserved_name(fields: Seq<(Seq<char>, FieldOption)>, name: Seq<char>)
    requires
        name.len() > 0,
        name[0] == '_',
        !names::has_name(fields, name),
    ensures
        flags_of(fields, name) == Some((true, true)),
{
}

/// Under a schema, any other field that is not declared is dropped.
pub proof fn lemma_undeclared(fields: Seq<(Seq<char>, FieldOption)>, name: Seq<char>)
    requires
        fields.len() > 0,
        name.len() == 0 || name[0] != '_',
        !names::has_name(fields, name),
    ensures
        flags_of(fields, name) is None,
{
}

/// The terms of a field.
pub open spec fn terms_in(a: AnalyzedDocument, name: Seq<char>) -> Option<Seq<TermView>> {
    match names::value_of(a.field_terms@, name) {
        Some(v) => Some(analyzed::term_views(v@)),
        None => None,
    }
}

/// The points of a field.
pub open spec fn points_in(a: AnalyzedDocument, name: Seq<char>) -> Option<Seq<Seq<u64>>> {
    match names::value_of(a.point_values@, name) {
        Some(v) => Some(point_views(v@)),
        None => None,
    }
}

/// What the value of a name holds.
pub open spec fn held(s: Seq<(Seq<char>, DataValue)>, name: Seq<char>) -> Option<DataView> {
    match names::value_of(s, name) {
        Some(v) => Some(v@),
        None => None,
    }
}

/// A parser of documents.
pub struct DocumentParser<A> {
    analyzer: A,
    fields: FieldMap<FieldOption>,
}

/// Whether a field of a document with this value is in `a` as the parser makes it:
/// stored where its flags say so; with the terms and points of its value, and with the
/// number of its tokens as its length, where they say so; and else not at all.
pub open spec fn is_parsed<A: Analyzer, F: Fn(Number) -> Forms>(
    parser: DocumentParser<A>,
    forms: F,
    value: Option<DataView>,
    a: AnalyzedDocument,
    name: Seq<char>,
) -> bool {
    let flags = match value {
        Some(_) => flags_of(parser.schema(), name),
        None => None,
    };
    &&& held(a.stored_fields@, name) == match flags {
        Some((_, true)) => value,
        _ => None,
    }
    &&& match flags {
        Some((true, _)) => entry_of(
            parser.uses(),
            forms,
            name,
            field::gap_for(names::value_of(parser.schema(), name)),
            value->Some_0,
            Ok(Entry { terms: terms_in(a, name), points: points_in(a, name) }),
        ),
        _ => terms_in(a, name) is None && points_in(a, name) is None,
    }
    &&& names::value_of(a.field_lengths@, name) == match terms_in(a, name) {
        Some(t) => Some(analyzed::length_of(t)),
        None => None,
    }
}

/// Whether a field of the document cannot be indexed, for this reason.
pub open spec fn is_refused<A: Analyzer, F: Fn(Number) -> Forms>(
    parser: DocumentParser<A>,
    forms: F,
    value: Option<DataView>,
    name: Seq<char>,
    e: LaurusError,
) -> bool {
    &&& value is Some
    &&& flags_of(parser.schema(), name) is Some
    &&& flags_of(parser.schema(), name)->Some_0.0
    &&& entry_of(
        parser.uses(),
        forms,
        name,
        field::gap_for(names::value_of(parser.schema(), name)),
        value->Some_0,
        Err(e),
    )
}

impl<A: Analyzer> DocumentParser<A> {
    /// The analyzer of the parser.
    pub closed spec fn uses(&self) -> A {
        self.analyzer
    }

    /// What was declared of fields.
    pub closed spec fn schema(&self) -> Seq<(Seq<char>, FieldOption)> {
        self.fields@
    }

    /// The declared names ascend.
    pub open spec fn wf(&self) -> bool {
        names::names_ascend(self.schema())
    }

    /// A parser without a schema.
    pub fn new(analyzer: A) -> (r: DocumentParser<A>)
        ensures
            r.wf(),
            r.uses() == analyzer,
            r.schema().len() == 0,
    {
        DocumentParser { analyzer, fields: FieldMap::new() }
    }

    /// The parser with this schema.
    pub fn with_fields(self, fields: FieldMap<FieldOption>) -> (r: DocumentParser<A>)
        requires
            fields.wf(),
        ensures
            r.wf(),
            r.uses() == self.uses(),
            r.schema() == fields@,
    {
        DocumentParser { analyzer: self.analyzer, fields }
    }

    fn field_flags(&self, field_name: &str) -> (r: Option<(bool, bool)>)
        requires
            self.wf(),
        ensures
            r == flags_of(self.schema(), field_name@),
    {
        match self.fields.get(field_name) {
            Some(o) => Some((o.indexed(), o.stored())),
            None => {
                if self.fields.is_empty() {
                    return Some((true, true));
                }
                if field_name.unicode_len() > 0 && field_name.get_char(0) == '_' {
                    Some((true, true))
                } else {
                    None
                }
            },
        }
    }

    fn position_increment_gap(&self, field_name: &str) -> (r: u32)
        requires
            self.wf(),
        ensures
            r == field::gap_for(names::value_of(self.schema(), field_name@)),
    {
        field::position_increment_gap_for(self.fields.get(field_name))
    }

    /// What is indexed of a field.
    fn index_field<F: Fn(Number) -> Forms>(
        &self,
        field_name: &str,
        value: &DataValue,
        forms: &F,
    ) -> (r: Result<FieldEntry, LaurusError>)
        requires
            self.wf(),
            forall|n: Number| call_requires(*forms, (n,)),
        ensures
            entry_of(
                self.uses(),
                *forms,
                field_name@,
                field::gap_for(names::value_of(self.schema(), field_name@)),
                value@,
                entry_shown(r),
            ),
    {
        match value {
            DataValue::Text(text) => {
                match self.analyzer.analyze_field(field_name, text.as_str()) {
                    Ok(tokens) => Ok((Some(tokens_to_analyzed_terms(tokens)), None)),
                    Err(e) => Err(e),
                }
            },
            DataValue::TextArray(texts) => {
                let gap: u32 = self.position_increment_gap(field_name);
                match index_texts(&self.analyzer, field_name, gap, texts) {
                    Ok(terms) => Ok((Some(terms), None)),
                    Err(e) => Err(e),
                }
            },
            DataValue::Bytes(_, _) | DataValue::Vector(_) | DataValue::Null => Ok((None, None)),
            _ => index_value(value, forms),
        }
    }

    /// Parses a document.
    ///
    /// `forms` writes numbers in the forms that need floating-point arithmetic.
    #[verifier::rlimit(60)]
    pub fn parse<F: Fn(Number) -> Forms>(&self, doc: Document, forms: &F) -> (r: Result<
        AnalyzedDocument,
        LaurusError,
    >)
        requires
            self.wf(),
            doc.wf(),
            forall|n: Number| call_requires(*forms, (n,)),
        ensures
            match r {
                Ok(a) => a.wf() && forall|name: Seq<char>| #[trigger]
                    is_parsed(*self, *forms, held(doc.fields@, name), a, name),
                Err(e) => exists|name: Seq<char>| #[trigger]
                    is_refused(*self, *forms, held(doc.fields@, name), name, e),
            },
    {
        let ghost all = doc.fields@;
        let mut a: AnalyzedDocument = AnalyzedDocument::new();
        let n: usize = doc.fields.len();
        let mut i: usize = 0;
        proof {
            assert forall|name: Seq<char>| #[trigger]
                is_parsed(*self, *forms, held(all.take(0), name), a, name) by {
                assert(!names::has_name(all.take(0), name));
                assert(!names::has_name(a.stored_fields@, name));
                assert(!names::has_name(a.field_terms@, name));
                assert(!names::has_name(a.point_values@, name));
                assert(!names::has_name(a.field_lengths@, name));
            }
        }
        while i < n
            invariant
                self.wf(),
                doc.wf(),
                forall|n: Number| call_requires(*forms, (n,)),
                all == doc.fields@,
                n == all.len(),
                i <= n,
                a.wf(),
                forall|name: Seq<char>| #[trigger]
                    is_parsed(*self, *forms, held(all.take(i as int), name), a, name),
            decreases n - i,
        {
            let name: &String = doc.fields.name_at(i);
            let value: &DataValue = doc.fields.value_at(i);
            let ghost before = a;
            let ghost done = all.take(i as int);
            proof {
                assert(all.take(i + 1) =~= done.push(all[i as int]));
                assert(names::names_ascend(done.push(all[i as int])));
                names::lemma_value_of_push(done, all[i as int], name@);
                assert(is_parsed(*self, *forms, held(done, name@), a, name@));
                names::lemma_value_at(all, name@, i as int);
            }
            if let Some((should_index, should_store)) = self.field_flags(name.as_str()) {
                if should_index {
                    match self.index_field(name.as_str(), value, forms) {
                        Ok((terms, points)) => {
                            if let Some(t) = terms {
                                let length: u32 = analyzed::field_length(&t);
                                proof {
                                    names::lemma_with_value(a.field_terms@, name@, t);
                                    names::lemma_with_value(a.field_lengths@, name@, length);
                                }
                                a.field_lengths.insert(name.clone(), length);
                                a.field_terms.insert(name.clone(), t);
                            }
                            if let Some(p) = points {
                                proof {
                                    names::lemma_with_value(a.point_values@, name@, p);
                                }
                                a.point_values.insert(name.clone(), p);
                            }
                        },
                        Err(e) => {
                            assert(is_refused(*self, *forms, held(all, name@), name@, e));
                            return Err(e);
                        },
                    }
                }
                if should_store {
                    let copy: DataValue = value.clone();
                    proof {
                        names::lemma_with_value(a.stored_fields@, name@, copy);
                    }
                    a.stored_fields.insert(name.clone(), copy);
                }
            }
            proof {
                assert forall|other: Seq<char>| #[trigger]
                    is_parsed(*self, *forms, held(all.take(i + 1), other), a, other) by {
                    names::lemma_value_of_push(done, all[i as int], other);
                    assert(is_parsed(*self, *forms, held(done, other), before, other));
                    if other != name@ {
                        assert(terms_in(a, other) == terms_in(before, other));
                        assert(points_in(a, other) == points_in(before, other));
                        assert(held(a.stored_fields@, other) == held(before.stored_fields@, other));
                    }
                }
            }
            i = i + 1;
        }
        assert(all.take(n as int) =~= all);
        Ok(a)
    }
}

// ---------------------------------------------------------------------------
// Lengths
// ---------------------------------------------------------------------------

/// How many tokens the first `k` texts have.
pub open spec fn tokens_in<A: Analyzer>(
    analyzer: A,
    name: Seq<char>,
    texts: Seq<Seq<char>>,
    k: int,
) -> nat
    decreases k,
{
    if k <= 0 {
        0
    } else {
        tokens_in(analyzer, name, texts, k - 1) + match analyzer.tokens(name, texts[k - 1]) {
            Ok(t) => t.len(),
            Err(_) => 0,
        }
    }
}

/// How many tokens a value has: those of its texts, or one for each single value.
pub open spec fn token_count<A: Analyzer>(analyzer: A, name: Seq<char>, v: DataView) -> nat {
    match v {
        DataView::Text(s) => tokens_in(analyzer, name, seq![s], 1),
        DataView::TextArray(a) => tokens_in(analyzer, name, a, a.len() as int),
        _ => elements(v).len(),
    }
}

proof fn lemma_moved_frequency(terms: Seq<TermView>, base: u32)
    ensures
        analyzed::total_frequency(terms.map_values(|t: TermView| moved(t, base)))
            == analyzed::total_frequency(terms),
    decreases terms.len(),
{
    let shifted = terms.map_values(|t: TermView| moved(t, base));
    if terms.len() > 0 {
        lemma_moved_frequency(terms.drop_last(), base);
        assert(shifted.drop_last() =~= terms.drop_last().map_values(|t: TermView| moved(t, base)));
    }
}

proof fn lemma_listed_frequency(terms: Seq<TermView>)
    requires
        forall|i: int| 0 <= i < terms.len() ==> (#[trigger] terms[i]).frequency == 1,
    ensures
        analyzed::total_frequency(terms) == terms.len(),
    decreases terms.len(),
{
    if terms.len() > 0 {
        let front = terms.drop_last();
        assert forall|i: int| 0 <= i < front.len() implies (#[trigger] front[i]).frequency == 1 by {
            assert(front[i] == terms[i]);
        }
        assert(terms[terms.len() - 1].frequency == 1);
        lemma_listed_frequency(front);
    }
}

proof fn lemma_length_of_texts<A: Analyzer>(
    analyzer: A,
    name: Seq<char>,
    gap: u32,
    texts: Seq<Seq<char>>,
    k: int,
)
    requires
        0 <= k <= texts.len(),
        text_terms(analyzer, name, gap, texts, k) is Ok,
        tokens_in(analyzer, name, texts, k) <= u32::MAX,
    ensures
        analyzed::length_of(text_terms(analyzer, name, gap, texts, k)->Ok_0.0) == tokens_in(
            analyzer,
            name,
            texts,
            k,
        ),
    decreases k,
{
    if k > 0 {
        lemma_length_of_texts(analyzer, name, gap, texts, k - 1);
        let (terms, end) = text_terms(analyzer, name, gap, texts, k - 1)->Ok_0;
        let tokens = analyzer.tokens(name, texts[k - 1])->Ok_0;
        let base = if k > 1 {
            saturated(end as int + gap as int)
        } else {
            end
        };
        let grouped = terms_of_tokens(tokens);
        let shifted = grouped.map_values(|t: TermView| moved(t, base));
        lemma_length_of_text(tokens);
        lemma_moved_frequency(grouped, base);
        analyzed::lemma_total_frequency_add(terms, shifted);
    }
}

/// The length of a field that is indexed is the number of its tokens, however often a
/// token is repeated.
pub proof fn lemma_length_is_token_count<A: Analyzer, F: Fn(Number) -> Forms>(
    parser: DocumentParser<A>,
    forms: F,
    value: DataView,
    a: AnalyzedDocument,
    name: Seq<char>,
)
    requires
        is_parsed(parser, forms, Some(value), a, name),
        terms_in(a, name) is Some,
        token_count(parser.uses(), name, value) <= u32::MAX,
    ensures
        names::value_of(a.field_lengths@, name) == Some(
            token_count(parser.uses(), name, value) as u32,
        ),
{
    let terms = terms_in(a, name)->Some_0;
    let analyzer = parser.uses();
    let gap = field::gap_for(names::value_of(parser.schema(), name));
    match value {
        DataView::Text(s) => {
            assert(seq![s][0] == s);
            reveal_with_fuel(tokens_in, 2);
            lemma_length_of_text(analyzer.tokens(name, s)->Ok_0);
        },
        DataView::TextArray(texts) => {
            lemma_length_of_texts(analyzer, name, gap, texts, texts.len() as int);
        },
        _ => {
            lemma_listed_frequency(terms);
        },
    }
}

} // verus!
