//! What a parsed document holds of the document that was parsed.

use vstd::prelude::*;
use vstd::utf8::*;

use crate::analysis::{Analyzer, TokenView};
use crate::analyzed;
use crate::analyzed::{AnalyzedDocument, AnalyzedTerm, TermView};
use crate::data::DataView;
use crate::error::LaurusError;
use crate::field;
use crate::field::{FieldOption, TextOption};
use crate::names;
use crate::numbers;
use crate::numbers::{Forms, Number};
use crate::outside;
use crate::parser;
use crate::parser::DocumentParser;
use crate::reader_laws;

verus! {

// ---------------------------------------------------------------------------
// Text
// ---------------------------------------------------------------------------

/// How many of the tokens have this text.
pub open spec fn times(tokens: Seq<TokenView>, text: Seq<char>) -> nat {
    tokens.filter(|t: TokenView| t.text == text).len()
}

/// Whether a term stands for the tokens of its text: where the first of them stands,
/// `base` positions on, at the offsets of that token, and as often as there are such
/// tokens.
pub open spec fn stands_for(tokens: Seq<TokenView>, k: int, base: int, t: TermView) -> bool {
    let place = (tokens[k].position as u32) + base;
    &&& 0 <= k < tokens.len()
    &&& t.term == tokens[k].text
    &&& forall|j: int| 0 <= j < k ==> #[trigger] tokens[j].text != t.term
    &&& t.position == if place < u32::MAX {
        place
    } else {
        u32::MAX as int
    }
    &&& t.offset == (tokens[k].start_offset, tokens[k].end_offset)
    &&& tokens.len() <= u32::MAX ==> t.frequency == times(tokens, t.term)
}

/// Whether these are the terms of tokens, `base` positions on: one for each text.
pub open spec fn stand_for(tokens: Seq<TokenView>, base: int, terms: Seq<TermView>) -> bool {
    &&& forall|i: int, j: int|
        0 <= i < j < terms.len() ==> (#[trigger] terms[i]).term != (#[trigger] terms[j]).term
    &&& forall|j: int|
        0 <= j < terms.len() ==> stands_for_some(tokens, base, #[trigger] terms[j])
    &&& forall|k: int| 0 <= k < tokens.len() ==> has_term(terms, (#[trigger] tokens[k]).text)
}

/// Whether a term stands for the tokens of some text.
pub open spec fn stands_for_some(tokens: Seq<TokenView>, base: int, t: TermView) -> bool {
    exists|k: int| stands_for(tokens, k, base, t)
}

/// Whether one of the terms has this text.
pub open spec fn has_term(terms: Seq<TermView>, text: Seq<char>) -> bool {
    exists|j: int| 0 <= j < terms.len() && (#[trigger] terms[j]).term == text
}

proof fn lemma_times(tokens: Seq<TokenView>, text: Seq<char>, n: int)
    requires
        0 <= n <= tokens.len(),
    ensures
        parser::occurrences(tokens, text, n) == times(tokens.take(n), text),
    decreases n,
{
    reveal(Seq::filter);
    if n > 0 {
        lemma_times(tokens, text, n - 1);
        assert(tokens.take(n).drop_last() =~= tokens.take(n - 1));
    }
}

proof fn lemma_terms_stand(tokens: Seq<TokenView>, base: u32, terms: Seq<TermView>)
    requires
        terms == parser::terms_of_tokens(tokens).map_values(|t: TermView| parser::moved(t, base)),
    ensures
        stand_for(tokens, base as int, terms),
{
    let n = tokens.len() as int;
    let f = parser::firsts(tokens, n);
    parser::lemma_firsts(tokens, n);
    parser::lemma_firsts_differ(tokens, n);
    assert forall|j: int| 0 <= j < terms.len() implies stands_for_some(
        tokens,
        base as int,
        #[trigger] terms[j],
    ) by {
        let k = f[j];
        let t = parser::term_of(tokens, k);
        assert(terms[j] == parser::moved(t, base));
        lemma_times(tokens, tokens[k].text, n);
        assert(tokens.take(n) =~= tokens);
        lemma_first_is_first(tokens, n, j);
        assert(times(tokens, t.term) <= tokens.len()) by {
            lemma_times_bound(tokens, t.term);
        }
        assert(stands_for(tokens, k, base as int, terms[j]));
    }
    assert forall|i: int, j: int| 0 <= i < j < terms.len() implies (#[trigger] terms[i]).term != (
    #[trigger] terms[j]).term by {
        assert(tokens[f[i]].text != tokens[f[j]].text);
    }
    assert forall|k: int| 0 <= k < tokens.len() implies has_term(terms, (#[trigger] tokens[k]).text) by {
        assert(parser::has_text(tokens, f, tokens[k].text));
        let j = choose|j: int| 0 <= j < f.len() && tokens[#[trigger] f[j]].text == tokens[k].text;
        assert(terms[j].term == tokens[k].text);
    }
}

proof fn lemma_times_bound(tokens: Seq<TokenView>, text: Seq<char>)
    ensures
        times(tokens, text) <= tokens.len(),
    decreases tokens.len(),
{
    reveal(Seq::filter);
    if tokens.len() > 0 {
        lemma_times_bound(tokens.drop_last(), text);
    }
}

proof fn lemma_first_is_first(tokens: Seq<TokenView>, n: int, j: int)
    requires
        0 <= n <= tokens.len(),
        0 <= j < parser::firsts(tokens, n).len(),
    ensures
        parser::is_first(tokens, parser::firsts(tokens, n)[j]),
    decreases n,
{
    if n > 0 {
        let f = parser::firsts(tokens, n - 1);
        if j < f.len() {
            lemma_first_is_first(tokens, n - 1, j);
        }
    }
}

/// The tokens of the elements before element `i` of an array of texts.
pub open spec fn tokens_before<A: Analyzer>(
    analyzer: A,
    name: Seq<char>,
    texts: Seq<Seq<char>>,
    i: int,
) -> nat
    decreases i,
{
    if i <= 0 {
        0
    } else {
        tokens_before(analyzer, name, texts, i - 1) + analyzer.tokens(
            name,
            texts[i - 1],
        )->Ok_0.len()
    }
}

/// Where element `i` of an array of texts starts: behind the tokens of the elements before
/// it, with a gap behind each of them.
pub open spec fn element_start<A: Analyzer>(
    analyzer: A,
    name: Seq<char>,
    gap: u32,
    texts: Seq<Seq<char>>,
    i: int,
) -> int {
    i * gap + tokens_before(analyzer, name, texts, i)
}

/// Whether the terms of an array of texts are those of its elements, one element behind
/// another: the terms of element `i` are those from `cuts[i]` to `cuts[i + 1]`.
pub open spec fn elements_stand<A: Analyzer>(
    analyzer: A,
    name: Seq<char>,
    gap: u32,
    texts: Seq<Seq<char>>,
    cuts: Seq<int>,
    terms: Seq<TermView>,
) -> bool {
    &&& cuts.len() == texts.len() + 1
    &&& cuts[0] == 0
    &&& cuts.last() == terms.len()
    &&& forall|i: int| 0 <= i < texts.len() ==> #[trigger] element_stands(
        analyzer,
        name,
        gap,
        texts,
        cuts,
        terms,
        i,
    )
}

/// Whether the terms from `cuts[i]` to `cuts[i + 1]` are those of element `i`.
pub open spec fn element_stands<A: Analyzer>(
    analyzer: A,
    name: Seq<char>,
    gap: u32,
    texts: Seq<Seq<char>>,
    cuts: Seq<int>,
    terms: Seq<TermView>,
    i: int,
) -> bool {
    &&& 0 <= cuts[i] <= cuts[i + 1] <= terms.len()
    &&& analyzer.tokens(name, texts[i]) is Ok
    &&& stand_for(
        analyzer.tokens(name, texts[i])->Ok_0,
        element_start(analyzer, name, gap, texts, i),
        terms.subrange(cuts[i], cuts[i + 1]),
    )
}

/// Whether no term of an element stands less than the gap behind the elements before it,
/// counted with their tokens and with the gaps between them, as far as positions reach.
pub open spec fn keep_distance<A: Analyzer>(
    analyzer: A,
    name: Seq<char>,
    gap: u32,
    texts: Seq<Seq<char>>,
    cuts: Seq<int>,
    terms: Seq<TermView>,
) -> bool {
    forall|i: int, j: int|
        0 <= i < texts.len() && cuts[i] <= j < cuts[i + 1] ==> terms[j].position
            >= #[trigger] element_start(analyzer, name, gap, texts, i) || (
        #[trigger] terms[j]).position == u32::MAX
}

/// Whether every element has so few tokens that they can be counted in 32 bits.
pub open spec fn countable<A: Analyzer>(
    analyzer: A,
    name: Seq<char>,
    texts: Seq<Seq<char>>,
) -> bool {
    forall|i: int|
        0 <= i < texts.len() ==> analyzer.tokens(name, #[trigger] texts[i])->Ok_0.len() <= u32::MAX
}

proof fn lemma_capped(tokens: Seq<TokenView>, base: int, terms: Seq<TermView>)
    requires
        base > u32::MAX,
        stand_for(tokens, u32::MAX as int, terms),
    ensures
        stand_for(tokens, base, terms),
{
    assert forall|j: int| 0 <= j < terms.len() implies stands_for_some(
        tokens,
        base,
        #[trigger] terms[j],
    ) by {
        assert(stands_for_some(tokens, u32::MAX as int, terms[j]));
        let k = choose|k: int| stands_for(tokens, k, u32::MAX as int, terms[j]);
        assert(stands_for(tokens, k, base, terms[j]));
    }
}

proof fn lemma_cuts<A: Analyzer>(
    analyzer: A,
    name: Seq<char>,
    gap: u32,
    texts: Seq<Seq<char>>,
    k: int,
) -> (cuts: Seq<int>)
    requires
        0 <= k <= texts.len(),
        countable(analyzer, name, texts),
        parser::text_terms(analyzer, name, gap, texts, k) is Ok,
    ensures
        cuts.len() == k + 1,
        cuts[0] == 0,
        cuts.last() == parser::text_terms(analyzer, name, gap, texts, k)->Ok_0.0.len(),
        forall|i: int| 0 <= i < k ==> #[trigger] element_stands(
            analyzer,
            name,
            gap,
            texts,
            cuts,
            parser::text_terms(analyzer, name, gap, texts, k)->Ok_0.0,
            i,
        ),
        k > 0 ==> element_start(analyzer, name, gap, texts, k) >= gap,
        k > 0 ==> parser::text_terms(analyzer, name, gap, texts, k)->Ok_0.1 == parser::saturated(
            element_start(analyzer, name, gap, texts, k) - gap,
        ),
        k == 0 ==> parser::text_terms(analyzer, name, gap, texts, k)->Ok_0.1 == 0,
    decreases k,
{
    if k == 0 {
        seq![0int]
    } else {
        let before = lemma_cuts(analyzer, name, gap, texts, k - 1);
        let (terms, end) = parser::text_terms(analyzer, name, gap, texts, k - 1)->Ok_0;
        let tokens = analyzer.tokens(name, texts[k - 1])->Ok_0;
        let start = element_start(analyzer, name, gap, texts, k - 1);
        let base = if k > 1 {
            parser::saturated(end as int + gap as int)
        } else {
            end
        };
        let more = parser::terms_of_tokens(tokens).map_values(
            |t: TermView| parser::moved(t, base),
        );
        let all = terms + more;
        let cuts = before.push(all.len() as int);
        assert(element_start(analyzer, name, gap, texts, k) == start + gap + tokens.len()) by {
            assert(k * gap == (k - 1) * gap + gap) by (nonlinear_arith);
        }
        assert(start >= 0 && (k == 1 ==> start == 0)) by {
            assert((k - 1) * gap >= 0) by (nonlinear_arith)
                requires
                    k >= 1,
            ;
            assert(k == 1 ==> (k - 1) * gap == 0) by (nonlinear_arith);
        }
        assert(base == parser::saturated(start));
        assert(tokens.len() as u32 == tokens.len()) by {
            assert(analyzer.tokens(name, texts[k - 1])->Ok_0.len() <= u32::MAX);
        }
        lemma_terms_stand(tokens, base, more);
        if start > u32::MAX {
            lemma_capped(tokens, start, more);
        }
        assert(all.subrange(terms.len() as int, all.len() as int) =~= more);
        assert forall|i: int| 0 <= i < k implies #[trigger] element_stands(
            analyzer,
            name,
            gap,
            texts,
            cuts,
            all,
            i,
        ) by {
            if i < k - 1 {
                assert(element_stands(analyzer, name, gap, texts, before, terms, i));
                assert(all.subrange(cuts[i], cuts[i + 1]) =~= terms.subrange(
                    before[i],
                    before[i + 1],
                ));
            } else {
                assert(cuts[i] == terms.len());
                assert(cuts[i + 1] == all.len());
            }
        }
        cuts
    }
}

/// The gap that a field declares between the elements of an array of texts.
pub open spec fn declared_gap(schema: Seq<(Seq<char>, FieldOption)>, name: Seq<char>) -> u32 {
    match names::value_of(schema, name) {
        Some(FieldOption::Text(o)) => o.position_increment_gap,
        _ => 100,
    }
}

/// A field with an array of texts that is indexed has the terms of each element, one
/// element behind another. Element `i` starts behind the tokens of all elements before it,
/// with the gap of the field behind each of them; so its terms stand at least the gap
/// behind the end of the element before it.
pub proof fn lemma_gap_between_elements<A: Analyzer, F: Fn(Number) -> Forms>(
    parser: DocumentParser<A>,
    forms: F,
    a: AnalyzedDocument,
    name: Seq<char>,
    texts: Seq<Seq<char>>,
)
    requires
        parser::is_parsed(parser, forms, Some(DataView::TextArray(texts)), a, name),
        parser::terms_in(a, name) is Some,
        countable(parser.uses(), name, texts),
    ensures
        exists|cuts: Seq<int>| #[trigger]
            elements_stand(
                parser.uses(),
                name,
                declared_gap(parser.schema(), name),
                texts,
                cuts,
                parser::terms_in(a, name)->Some_0,
            ) && keep_distance(
                parser.uses(),
                name,
                declared_gap(parser.schema(), name),
                texts,
                cuts,
                parser::terms_in(a, name)->Some_0,
            ),
{
    let analyzer = parser.uses();
    let gap = declared_gap(parser.schema(), name);
    let terms = parser::terms_in(a, name)->Some_0;
    let n = texts.len() as int;
    assert(parser::text_terms(analyzer, name, gap, texts, n) is Ok);
    let cuts = lemma_cuts(analyzer, name, gap, texts, n);
    assert forall|i: int, j: int|
        0 <= i < texts.len() && cuts[i] <= j < cuts[i + 1] implies terms[j].position
        >= #[trigger] element_start(analyzer, name, gap, texts, i) || (
    #[trigger] terms[j]).position == u32::MAX by {
        assert(element_stands(analyzer, name, gap, texts, cuts, terms, i));
        let part = terms.subrange(cuts[i], cuts[i + 1]);
        let t = part[j - cuts[i]];
        assert(t == terms[j]);
        let tokens = analyzer.tokens(name, texts[i])->Ok_0;
        let start = element_start(analyzer, name, gap, texts, i);
        assert(stands_for_some(tokens, start, t));
        let k = choose|k: int| stands_for(tokens, k, start, t);
        assert(stands_for(tokens, k, start, terms[j]));
    }
    assert(keep_distance(analyzer, name, gap, texts, cuts, terms));
    assert(elements_stand(analyzer, name, gap, texts, cuts, terms));
}

/// A field with one text that is indexed has the terms of its tokens, each where the first
/// token of its text stands.
pub proof fn lemma_terms_of_text<A: Analyzer, F: Fn(Number) -> Forms>(
    parser: DocumentParser<A>,
    forms: F,
    a: AnalyzedDocument,
    name: Seq<char>,
    text: Seq<char>,
)
    requires
        parser::is_parsed(parser, forms, Some(DataView::Text(text)), a, name),
        parser::terms_in(a, name) is Some,
    ensures
        parser.uses().tokens(name, text) is Ok,
        stand_for(parser.uses().tokens(name, text)->Ok_0, 0, parser::terms_in(a, name)->Some_0),
{
    let tokens = parser.uses().tokens(name, text)->Ok_0;
    let terms = parser::terms_in(a, name)->Some_0;
    assert(terms =~= parser::terms_of_tokens(tokens).map_values(
        |t: TermView| parser::moved(t, 0),
    ));
    lemma_terms_stand(tokens, 0, terms);
}

// ---------------------------------------------------------------------------
// Numbers, truth values, instants and points
// ---------------------------------------------------------------------------

/// Whether terms stand one behind another: term `i` at position `i`, once, and one byte
/// behind the end of the term before it.
pub open spec fn stand_in_line(terms: Seq<TermView>) -> bool {
    forall|i: int|
        0 <= i < terms.len() ==> {
            let t = #[trigger] terms[i];
            &&& t.position == i as u32
            &&& t.frequency == 1
            &&& t.offset.0 == if i == 0 {
                0int
            } else {
                ends_at(terms, i - 1) + 1
            }
            &&& t.offset.1 == t.offset.0 + encode_utf8(t.term).len()
        }
}

/// Where a term ends.
pub open spec fn ends_at(terms: Seq<TermView>, i: int) -> int {
    terms[i].offset.1 as int
}

/// Whether a text is that of numbers with commas between them.
pub open spec fn is_pair_text<F: Fn(Number) -> Forms>(
    forms: F,
    text: Seq<char>,
    x: u64,
    y: u64,
) -> bool {
    exists|a: Seq<char>, b: Seq<char>|
        {
            &&& #[trigger] numbers::gives_text(forms, Number::Float { bits: x }, a)
            &&& #[trigger] numbers::gives_text(forms, Number::Float { bits: y }, b)
            &&& text == a + seq![','] + b
        }
}

/// Whether a text is that of three numbers with commas between them.
pub open spec fn is_triple_text<F: Fn(Number) -> Forms>(
    forms: F,
    text: Seq<char>,
    x: u64,
    y: u64,
    z: u64,
) -> bool {
    exists|a: Seq<char>, b: Seq<char>, c: Seq<char>|
        {
            &&& #[trigger] numbers::gives_text(forms, Number::Float { bits: x }, a)
            &&& #[trigger] numbers::gives_text(forms, Number::Float { bits: y }, b)
            &&& #[trigger] numbers::gives_text(forms, Number::Float { bits: z }, c)
            &&& text == a + seq![','] + b + seq![','] + c
        }
}

/// Whether a term and a point are those of an integer.
pub open spec fn of_integer<F: Fn(Number) -> Forms>(
    forms: F,
    n: i64,
    term: Seq<char>,
    point: Seq<u64>,
) -> bool {
    &&& term == numbers::integer_text(n)
    &&& point.len() == 1
    &&& numbers::gives_bits(forms, Number::Integer { value: n }, point[0])
}

/// Whether a term and a point are those of a float.
pub open spec fn of_float<F: Fn(Number) -> Forms>(
    forms: F,
    bits: u64,
    term: Seq<char>,
    point: Seq<u64>,
) -> bool {
    &&& numbers::gives_text(forms, Number::Float { bits }, term)
    &&& point == seq![bits]
}

/// Whether a term and a point are those of an instant: the point is that of its whole
/// microseconds.
pub open spec fn of_instant<F: Fn(Number) -> Forms>(
    forms: F,
    t: (i64, u32),
    term: Seq<char>,
    point: Seq<u64>,
) -> bool {
    &&& term == outside::rfc3339_text(t)
    &&& point.len() == 1
    &&& numbers::gives_bits(
        forms,
        Number::Micros { micros: (t.0 * 1_000_000 + t.1 as int / 1000) as i64 },
        point[0],
    )
}

proof fn lemma_pair_text<F: Fn(Number) -> Forms>(forms: F, t: Seq<char>, x: u64, y: u64)
    requires
        parser::joins(forms, seq![x, y], t),
    ensures
        is_pair_text(forms, t, x, y),
{
    let all = seq![x, y];
    let parts = choose|parts: Seq<Seq<char>>| #[trigger]
        parser::gives_parts(forms, all, parts) && t == parser::joined(parts);
    reveal_with_fuel(parser::joined, 3);
    assert(parts.len() == 2);
    let (a, b) = (parts[0], parts[1]);
    assert(parts.drop_last()[0] == a);
    assert(numbers::gives_text(forms, Number::Float { bits: all[0] }, a));
    assert(numbers::gives_text(forms, Number::Float { bits: all[1] }, b));
    assert(t == a + seq![','] + b);
}

proof fn lemma_triple_text<F: Fn(Number) -> Forms>(forms: F, t: Seq<char>, x: u64, y: u64, z: u64)
    requires
        parser::joins(forms, seq![x, y, z], t),
    ensures
        is_triple_text(forms, t, x, y, z),
{
    let all = seq![x, y, z];
    let parts = choose|parts: Seq<Seq<char>>| #[trigger]
        parser::gives_parts(forms, all, parts) && t == parser::joined(parts);
    reveal_with_fuel(parser::joined, 4);
    assert(parts.len() == 3);
    let (a, b, c) = (parts[0], parts[1], parts[2]);
    let two = parts.drop_last();
    assert(two[0] == a && two[1] == b && two.last() == b);
    assert(two.drop_last()[0] == a);
    assert(numbers::gives_text(forms, Number::Float { bits: all[0] }, a));
    assert(numbers::gives_text(forms, Number::Float { bits: all[1] }, b));
    assert(numbers::gives_text(forms, Number::Float { bits: all[2] }, c));
    assert(t == a + seq![','] + b + seq![','] + c);
}

proof fn lemma_in_line(texts: Seq<Seq<char>>)
    requires
        parser::fits(texts),
    ensures
        stand_in_line(parser::listed(texts)),
{
    let ts = parser::listed(texts);
    assert forall|i: int| 0 <= i < ts.len() implies {
        let t = #[trigger] ts[i];
        &&& t.position == i as u32
        &&& t.frequency == 1
        &&& t.offset.0 == if i == 0 {
            0int
        } else {
            ends_at(ts, i - 1) + 1
        }
        &&& t.offset.1 == t.offset.0 + encode_utf8(t.term).len()
    } by {
        assert(parser::start_of(texts, i) + parser::byte_len(texts[i]) <= usize::MAX);
        if i > 0 {
            assert(ts[i - 1] == parser::listed(texts)[i - 1]);
            assert(parser::start_of(texts, i - 1) + parser::byte_len(texts[i - 1]) <= usize::MAX);
        }
    }
}

/// How many numbers, truth values, instants or points a value is made of.
pub open spec fn number_of(v: DataView) -> nat {
    match v {
        DataView::Int64Array(a) => a.len(),
        DataView::Float64Array(a) => a.len(),
        DataView::BoolArray(a) => a.len(),
        DataView::DateTimeArray(a) => a.len(),
        DataView::GeoArray(a) => a.len(),
        DataView::GeoEcefArray(a) => a.len(),
        _ => 1,
    }
}

/// The number, truth value, instant or point at place `i` of a value.
pub open spec fn value_at(v: DataView, i: int) -> DataView {
    match v {
        DataView::Int64Array(a) => DataView::Int64(a[i]),
        DataView::Float64Array(a) => DataView::Float64(a[i]),
        DataView::BoolArray(a) => DataView::Bool(a[i]),
        DataView::DateTimeArray(a) => DataView::DateTime(a[i]),
        DataView::GeoArray(a) => DataView::Geo(a[i]),
        DataView::GeoEcefArray(a) => DataView::GeoEcef(a[i]),
        _ => v,
    }
}

/// Whether a term is the text of a single value, and a point, where there is one, its
/// coordinates.
pub open spec fn is_entry_of<F: Fn(Number) -> Forms>(
    forms: F,
    v: DataView,
    term: Seq<char>,
    point: Option<Seq<u64>>,
) -> bool {
    match v {
        DataView::Int64(n) => point is Some && of_integer(forms, n, term, point->Some_0),
        DataView::Float64(bits) => point is Some && of_float(forms, bits, term, point->Some_0),
        DataView::Bool(b) => point is None && term == if b {
            "true"@
        } else {
            "false"@
        },
        DataView::DateTime(t) => point is Some && of_instant(forms, t, term, point->Some_0),
        DataView::Geo(g) => point == Some(seq![g.lat, g.lon]) && is_pair_text(
            forms,
            term,
            g.lat,
            g.lon,
        ),
        DataView::GeoEcef(g) => point == Some(seq![g.x, g.y, g.z]) && is_triple_text(
            forms,
            term,
            g.x,
            g.y,
            g.z,
        ),
        _ => false,
    }
}

proof fn lemma_entry_of<F: Fn(Number) -> Forms>(
    forms: F,
    v: DataView,
    term: Seq<char>,
    point: Option<Seq<u64>>,
)
    requires
        parser::spelled(forms, v, term),
        point is Some <==> !(v is Bool),
        point is Some ==> parser::pointed(forms, v, point->Some_0),
    ensures
        is_entry_of(forms, v, term, point),
{
    match v {
        DataView::Geo(g) => {
            lemma_pair_text(forms, term, g.lat, g.lon);
        },
        DataView::GeoEcef(g) => {
            lemma_triple_text(forms, term, g.x, g.y, g.z);
        },
        _ => {},
    }
}

proof fn lemma_elements(v: DataView)
    requires
        parser::is_plain(v),
    ensures
        parser::elements(v).len() == number_of(v),
        forall|i: int|
            0 <= i < number_of(v) ==> #[trigger] parser::elements(v)[i] == value_at(v, i),
        parser::has_points(v) <==> !(v is Bool || v is BoolArray),
{
}

/// A field with numbers, truth values, instants or points that is indexed has one term for
/// each of them, in their order, with its text; and, but for truth values, one point for
/// each of them, with its coordinates.
pub proof fn lemma_terms_of_values<A: Analyzer, F: Fn(Number) -> Forms>(
    parser: DocumentParser<A>,
    forms: F,
    a: AnalyzedDocument,
    name: Seq<char>,
    v: DataView,
    i: int,
)
    requires
        parser::is_parsed(parser, forms, Some(v), a, name),
        parser::terms_in(a, name) is Some,
        !(v is Text || v is TextArray),
        0 <= i < number_of(v),
    ensures
        stand_in_line(parser::terms_in(a, name)->Some_0),
        parser::terms_in(a, name)->Some_0.len() == number_of(v),
        parser::points_in(a, name) is Some <==> !(v is Bool || v is BoolArray),
        parser::points_in(a, name) is Some ==> parser::points_in(a, name)->Some_0.len()
            == number_of(v),
        is_entry_of(
            forms,
            value_at(v, i),
            parser::terms_in(a, name)->Some_0[i].term,
            match parser::points_in(a, name) {
                Some(ps) => Some(ps[i]),
                None => None,
            },
        ),
{
    assert(parser::is_plain(v));
    assert(parser::value_entry(
        forms,
        v,
        Ok(
            parser::Entry {
                terms: parser::terms_in(a, name),
                points: parser::points_in(a, name),
            },
        ),
    ));
    lemma_value_entry(forms, v, parser::terms_in(a, name), parser::points_in(a, name), i);
}

proof fn lemma_value_entry<F: Fn(Number) -> Forms>(
    forms: F,
    v: DataView,
    terms: Option<Seq<TermView>>,
    points: Option<Seq<Seq<u64>>>,
    i: int,
)
    requires
        parser::is_plain(v),
        parser::value_entry(forms, v, Ok(parser::Entry { terms, points })),
        0 <= i < number_of(v),
    ensures
        terms is Some,
        stand_in_line(terms->Some_0),
        terms->Some_0.len() == number_of(v),
        points is Some <==> !(v is Bool || v is BoolArray),
        points is Some ==> points->Some_0.len() == number_of(v),
        is_entry_of(
            forms,
            value_at(v, i),
            terms->Some_0[i].term,
            match points {
                Some(ps) => Some(ps[i]),
                None => None,
            },
        ),
{
    let es = parser::elements(v);
    lemma_elements(v);
    let texts = choose|texts: Seq<Seq<char>>| #[trigger]
        parser::spelled_all(forms, es, texts) && texts.len() == es.len() && parser::fits(texts)
            && terms == Some(parser::listed(texts));
    lemma_in_line(texts);
    assert(parser::spelled(forms, es[i], texts[i]));
    let point = match points {
        Some(ps) => Some(ps[i]),
        None => None,
    };
    if let Some(ps) = points {
        assert(parser::pointed(forms, es[i], ps[i]));
    }
    lemma_entry_of(forms, es[i], texts[i], point);
}

// ---------------------------------------------------------------------------
// Declarations
// ---------------------------------------------------------------------------

/// What a declaration says: whether the field is indexed, and whether it is stored.
pub open spec fn says(option: FieldOption) -> (bool, bool) {
    match option {
        FieldOption::Text(o) => (o.indexed, o.stored),
        FieldOption::Integer(o) => (o.indexed, o.stored),
        FieldOption::Float(o) => (o.indexed, o.stored),
        FieldOption::Boolean(o) => (o.indexed, o.stored),
        FieldOption::DateTime(o) => (o.indexed, o.stored),
        FieldOption::Geo(o) => (o.indexed, o.stored),
        FieldOption::Geo3d(o) => (o.indexed, o.stored),
        FieldOption::Bytes(o) => (false, o.stored),
    }
}

/// A field that is declared is stored, unchanged, exactly where its declaration says so,
/// and has terms and points only where its declaration says that it is indexed; then it
/// has terms unless its value is bytes, a vector or null. A field that is not declared is
/// treated as indexed and stored where there are no declarations or its name starts with
/// an underscore, and is dropped elsewhere.
pub proof fn lemma_declaration_is_followed<A: Analyzer, F: Fn(Number) -> Forms>(
    parser: DocumentParser<A>,
    forms: F,
    a: AnalyzedDocument,
    name: Seq<char>,
    v: DataView,
)
    requires
        parser::is_parsed(parser, forms, Some(v), a, name),
    ensures
        ({
            let declared = names::value_of(parser.schema(), name);
            let open = parser.schema().len() == 0 || (name.len() > 0 && name[0] == '_');
            let indexed = match declared {
                Some(o) => says(o).0,
                None => open,
            };
            let stored = match declared {
                Some(o) => says(o).1,
                None => open,
            };
            let silent = v is Bytes || v is Vector || v is Null;
            &&& parser::held(a.stored_fields@, name) == if stored {
                Some(v)
            } else {
                None
            }
            &&& parser::terms_in(a, name) is Some <==> indexed && !silent
            &&& parser::points_in(a, name) is Some <==> indexed && !silent && !(v is Text || v
                is TextArray || v is Bool || v is BoolArray)
            &&& names::value_of(a.field_lengths@, name) is Some <==> indexed && !silent
        }),
{
}

/// A field that the document does not have leaves no trace.
pub proof fn lemma_missing_field<A: Analyzer, F: Fn(Number) -> Forms>(
    parser: DocumentParser<A>,
    forms: F,
    a: AnalyzedDocument,
    name: Seq<char>,
)
    requires
        parser::is_parsed(parser, forms, None, a, name),
    ensures
        parser::held(a.stored_fields@, name) is None,
        parser::terms_in(a, name) is None,
        parser::points_in(a, name) is None,
        names::value_of(a.field_lengths@, name) is None,
{
}

// ---------------------------------------------------------------------------
// Refusals
// ---------------------------------------------------------------------------

proof fn lemma_texts_fail<A: Analyzer>(
    analyzer: A,
    name: Seq<char>,
    gap: u32,
    texts: Seq<Seq<char>>,
    k: int,
)
    requires
        0 <= k <= texts.len(),
    ensures
        match parser::text_terms(analyzer, name, gap, texts, k) {
            Ok(_) => forall|i: int| 0 <= i < k ==> analyzer.tokens(name, #[trigger] texts[i]) is Ok,
            Err(e) => exists|i: int| #[trigger] is_first_fault(analyzer, name, texts, i, e) && i < k,
        },
    decreases k,
{
    if k > 0 {
        lemma_texts_fail(analyzer, name, gap, texts, k - 1);
        if parser::text_terms(analyzer, name, gap, texts, k - 1) is Ok {
            if let Err(e) = analyzer.tokens(name, texts[k - 1]) {
                assert(is_first_fault(analyzer, name, texts, k - 1, e));
            }
        } else {
            let e = parser::text_terms(analyzer, name, gap, texts, k - 1)->Err_0;
            let i = choose|i: int| #[trigger]
                is_first_fault(analyzer, name, texts, i, e) && i < k - 1;
            assert(is_first_fault(analyzer, name, texts, i, e) && i < k);
        }
    }
}

/// Whether element `i` of an array of texts is the first that the analyzer refuses, for
/// this reason.
pub open spec fn is_first_fault<A: Analyzer>(
    analyzer: A,
    name: Seq<char>,
    texts: Seq<Seq<char>>,
    i: int,
    e: LaurusError,
) -> bool {
    &&& 0 <= i < texts.len()
    &&& analyzer.tokens(name, texts[i]) == Err::<Seq<TokenView>, LaurusError>(e)
    &&& forall|j: int| 0 <= j < i ==> analyzer.tokens(name, #[trigger] texts[j]) is Ok
}

/// A field is refused only where the analyzer refuses its text, for the reason that the
/// analyzer gives, or the first of its texts that it refuses; any other value only where
/// offsets cannot address the texts of its elements. Bytes, vectors and nulls are never
/// refused.
pub proof fn lemma_refused_field<A: Analyzer, F: Fn(Number) -> Forms>(
    parser: DocumentParser<A>,
    forms: F,
    v: DataView,
    name: Seq<char>,
    e: LaurusError,
)
    requires
        parser::is_refused(parser, forms, Some(v), name, e),
    ensures
        match v {
            DataView::Text(s) => parser.uses().tokens(name, s) == Err::<
                Seq<TokenView>,
                LaurusError,
            >(e),
            DataView::TextArray(a) => exists|i: int| #[trigger]
                is_first_fault(parser.uses(), name, a, i, e),
            DataView::Bytes(_, _) | DataView::Vector(_) | DataView::Null => false,
            _ => e == LaurusError::FieldSize,
        },
{
    if let DataView::TextArray(a) = v {
        let gap = declared_gap(parser.schema(), name);
        lemma_texts_fail(parser.uses(), name, gap, a, a.len() as int);
    }
}

// ---------------------------------------------------------------------------
// Options and lengths
// ---------------------------------------------------------------------------

/// Every kind of field is indexed and stored as its option says, but bytes are never
/// indexed.
pub proof fn lemma_options(option: FieldOption, indexed: bool, stored: bool)
    requires
        call_ensures(FieldOption::indexed, (&option,), indexed),
        call_ensures(FieldOption::stored, (&option,), stored),
    ensures
        match option {
            FieldOption::Text(o) => indexed == o.indexed && stored == o.stored,
            FieldOption::Integer(o) => indexed == o.indexed && stored == o.stored,
            FieldOption::Float(o) => indexed == o.indexed && stored == o.stored,
            FieldOption::Boolean(o) => indexed == o.indexed && stored == o.stored,
            FieldOption::DateTime(o) => indexed == o.indexed && stored == o.stored,
            FieldOption::Geo(o) => indexed == o.indexed && stored == o.stored,
            FieldOption::Geo3d(o) => indexed == o.indexed && stored == o.stored,
            FieldOption::Bytes(o) => !indexed && stored == o.stored,
        },
{
}

/// Only a field of text has a gap of its own; every other field, declared or not, has the
/// gap that a field of text has that says nothing of it.
pub proof fn lemma_gap(option: Option<&FieldOption>, usual: TextOption, r: u32)
    requires
        call_ensures(field::position_increment_gap_for, (option,), r),
        call_ensures(TextOption::default, (), usual),
    ensures
        option matches Some(FieldOption::Text(o)) ==> r == o.position_increment_gap,
        !(option matches Some(FieldOption::Text(_))) ==> r == usual.position_increment_gap,
        usual.position_increment_gap == 100,
{
}

proof fn lemma_frequencies(terms: Seq<TermView>)
    ensures
        analyzed::total_frequency(terms) == reader_laws::sum(
            terms.map_values(|t: TermView| t.frequency as nat),
        ),
    decreases terms.len(),
{
    let often = |t: TermView| t.frequency as nat;
    if terms.len() > 0 {
        lemma_frequencies(terms.drop_last());
        assert(terms.map_values(often).drop_last() =~= terms.drop_last().map_values(often));
    }
}

/// A field is as long as its terms occur often, all together; the count is kept in 32 bits.
pub proof fn lemma_length_of_field(terms: Vec<AnalyzedTerm>, r: u32)
    requires
        call_ensures(analyzed::field_length, (&terms,), r),
    ensures
        r == reader_laws::sum(terms@.map_values(|t: AnalyzedTerm| t.frequency as nat))
            % 0x1_0000_0000,
{
    let views = analyzed::term_views(terms@);
    lemma_frequencies(views);
    assert(views.map_values(|t: TermView| t.frequency as nat) =~= terms@.map_values(
        |t: AnalyzedTerm| t.frequency as nat,
    ));
}

} // verus!
