//! Maps from field names to values.

use vstd::prelude::*;
use vstd::slice::*;
use vstd::utf8::*;

verus! {

/// Whether `a` comes before `b` byte by byte, a proper prefix first.
pub open spec fn bytes_before(a: Seq<u8>, b: Seq<u8>) -> bool
    decreases a.len(),
{
    if b.len() == 0 {
        false
    } else if a.len() == 0 {
        true
    } else if a[0] != b[0] {
        a[0] < b[0]
    } else {
        bytes_before(a.skip(1), b.skip(1))
    }
}

/// Whether the name `a` comes before the name `b`.
pub open spec fn name_before(a: Seq<char>, b: Seq<char>) -> bool {
    bytes_before(encode_utf8(a), encode_utf8(b))
}

proof fn lemma_bytes_before_transitive(a: Seq<u8>, b: Seq<u8>, c: Seq<u8>)
    requires
        bytes_before(a, b),
        bytes_before(b, c),
    ensures
        bytes_before(a, c),
    decreases a.len(),
{
    if a.len() > 0 && a[0] == b[0] && b[0] == c[0] {
        lemma_bytes_before_transitive(a.skip(1), b.skip(1), c.skip(1));
    }
}

proof fn lemma_bytes_before_asymmetric(a: Seq<u8>, b: Seq<u8>)
    requires
        bytes_before(a, b),
    ensures
        !bytes_before(b, a),
        a != b,
    decreases a.len(),
{
    if a.len() > 0 && a[0] == b[0] {
        lemma_bytes_before_asymmetric(a.skip(1), b.skip(1));
    }
}

/// The order of names is transitive.
pub proof fn lemma_name_before_transitive(a: Seq<char>, b: Seq<char>, c: Seq<char>)
    requires
        name_before(a, b),
        name_before(b, c),
    ensures
        name_before(a, c),
{
    lemma_bytes_before_transitive(encode_utf8(a), encode_utf8(b), encode_utf8(c));
}

/// Of two names, at most one comes first, and then they differ.
pub proof fn lemma_name_before_asymmetric(a: Seq<char>, b: Seq<char>)
    requires
        name_before(a, b),
    ensures
        !name_before(b, a),
        a != b,
{
    lemma_bytes_before_asymmetric(encode_utf8(a), encode_utf8(b));
}

/// How two names stand to each other.
#[derive(Debug, Clone, Copy, PartialEq, Eq)]
pub enum NameOrder {
    Before,
    Same,
    After,
}

/// Orders two names by their bytes.
pub fn name_order(a: &str, b: &str) -> (r: NameOrder)
    ensures
        r == NameOrder::Before <==> name_before(a@, b@),
        r == NameOrder::After <==> name_before(b@, a@),
        r == NameOrder::Same <==> a@ == b@,
{
    let x: &[u8] = a.as_bytes();
    let y: &[u8] = b.as_bytes();
    let n: usize = x.len();
    let m: usize = y.len();
    let mut i: usize = 0;
    proof {
        assert(x@.skip(0) =~= x@);
        assert(y@.skip(0) =~= y@);
    }
    while i < n && i < m
        invariant
            n == x@.len(),
            m == y@.len(),
            i <= n,
            i <= m,
            x@ == encode_utf8(a@),
            y@ == encode_utf8(b@),
            forall|j: int| 0 <= j < i ==> x@[j] == y@[j],
            bytes_before(x@, y@) == bytes_before(x@.skip(i as int), y@.skip(i as int)),
            bytes_before(y@, x@) == bytes_before(y@.skip(i as int), x@.skip(i as int)),
        decreases n - i,
    {
        proof {
            assert(x@.skip(i as int).skip(1) =~= x@.skip(i + 1));
            assert(y@.skip(i as int).skip(1) =~= y@.skip(i + 1));
        }
        if x[i] < y[i] {
            proof {
                lemma_bytes_before_asymmetric(x@, y@);
            }
            return NameOrder::Before;
        }
        if x[i] > y[i] {
            proof {
                lemma_bytes_before_asymmetric(y@, x@);
            }
            return NameOrder::After;
        }
        i = i + 1;
    }
    if n < m {
        proof {
            lemma_bytes_before_asymmetric(x@, y@);
        }
        NameOrder::Before
    } else if m < n {
        proof {
            lemma_bytes_before_asymmetric(y@, x@);
        }
        NameOrder::After
    } else {
        proof {
            assert(x@ =~= y@);
            encode_utf8_decode_utf8(a@);
            encode_utf8_decode_utf8(b@);
        }
        NameOrder::Same
    }
}

/// Whether two names are the same.
pub fn same_name(a: &str, b: &str) -> (r: bool)
    ensures
        r == (a@ == b@),
{
    match name_order(a, b) {
        NameOrder::Same => true,
        _ => false,
    }
}

/// Whether the names of `s` ascend, so that none occurs twice.
pub open spec fn names_ascend<V>(s: Seq<(Seq<char>, V)>) -> bool {
    forall|i: int, j: int| 0 <= i < j < s.len() ==> name_before(#[trigger] s[i].0, #[trigger] s[j].0)
}

/// Whether `name` has a value in `s`.
pub open spec fn has_name<V>(s: Seq<(Seq<char>, V)>, name: Seq<char>) -> bool {
    exists|i: int| 0 <= i < s.len() && #[trigger] s[i].0 == name
}

/// The value of `name` in `s`.
pub open spec fn value_of<V>(s: Seq<(Seq<char>, V)>, name: Seq<char>) -> Option<V> {
    if has_name(s, name) {
        Some(s[choose|i: int| 0 <= i < s.len() && #[trigger] s[i].0 == name].1)
    } else {
        None
    }
}

/// Where `name` belongs in `s`: behind every name that comes before it.
pub open spec fn place_of<V>(s: Seq<(Seq<char>, V)>, name: Seq<char>) -> int
    decreases s.len(),
{
    if s.len() == 0 {
        0
    } else if name_before(s.last().0, name) {
        s.len() as int
    } else {
        place_of(s.drop_last(), name)
    }
}

/// `s` with `value` for `name`, in place of an earlier value.
pub open spec fn with_value<V>(s: Seq<(Seq<char>, V)>, name: Seq<char>, value: V) -> Seq<(Seq<char>, V)> {
    let k = place_of(s, name);
    if k < s.len() && s[k].0 == name {
        s.update(k, (name, value))
    } else {
        s.insert(k, (name, value))
    }
}

/// `s` without `name`.
pub open spec fn without_name<V>(s: Seq<(Seq<char>, V)>, name: Seq<char>) -> Seq<(Seq<char>, V)> {
    let k = place_of(s, name);
    if k < s.len() && s[k].0 == name {
        s.remove(k)
    } else {
        s
    }
}

/// Values by name: a later one takes the place of an earlier one.
pub open spec fn latest<V>(s: Seq<(Seq<char>, V)>) -> Seq<(Seq<char>, V)>
    decreases s.len(),
{
    if s.len() == 0 {
        Seq::empty()
    } else {
        with_value(latest(s.drop_last()), s.last().0, s.last().1)
    }
}

/// What the place of a name means.
pub proof fn lemma_place<V>(s: Seq<(Seq<char>, V)>, name: Seq<char>)
    requires
        names_ascend(s),
    ensures
        0 <= place_of(s, name) <= s.len(),
        forall|i: int| 0 <= i < place_of(s, name) ==> name_before(#[trigger] s[i].0, name),
        forall|i: int| place_of(s, name) <= i < s.len() ==> !name_before(#[trigger] s[i].0, name),
    decreases s.len(),
{
    if s.len() > 0 {
        if name_before(s.last().0, name) {
            assert forall|i: int| 0 <= i < s.len() implies name_before(#[trigger] s[i].0, name) by {
                if i < s.len() - 1 {
                    lemma_name_before_transitive(s[i].0, s.last().0, name);
                }
            }
        } else {
            lemma_place(s.drop_last(), name);
            let k = place_of(s.drop_last(), name);
            assert forall|i: int| 0 <= i < k implies name_before(#[trigger] s[i].0, name) by {
                assert(s.drop_last()[i] == s[i]);
            }
            assert forall|i: int| k <= i < s.len() implies !name_before(#[trigger] s[i].0, name) by {
                if i < s.len() - 1 {
                    assert(s.drop_last()[i] == s[i]);
                }
            }
        }
    }
}

/// The place of a name is fixed by what comes before it.
pub proof fn lemma_place_unique<V>(s: Seq<(Seq<char>, V)>, name: Seq<char>, k: int)
    requires
        names_ascend(s),
        0 <= k <= s.len(),
        forall|i: int| 0 <= i < k ==> name_before(#[trigger] s[i].0, name),
        k < s.len() ==> !name_before(s[k].0, name),
    ensures
        place_of(s, name) == k,
{
    lemma_place(s, name);
    let p = place_of(s, name);
    if p < k {
        assert(name_before(s[p].0, name));
    }
    if k < p {
        assert(name_before(s[k].0, name));
    }
}

/// A name is in `s` exactly where its place holds it, and nowhere else.
pub proof fn lemma_value_at<V>(s: Seq<(Seq<char>, V)>, name: Seq<char>, k: int)
    requires
        names_ascend(s),
        0 <= k < s.len(),
        s[k].0 == name,
    ensures
        value_of(s, name) == Some(s[k].1),
        place_of(s, name) == k,
        forall|i: int| 0 <= i < s.len() && #[trigger] s[i].0 == name ==> i == k,
{
    assert forall|i: int| 0 <= i < s.len() && #[trigger] s[i].0 == name implies i == k by {
        if i < k {
            lemma_name_before_asymmetric(s[i].0, s[k].0);
        }
        if k < i {
            lemma_name_before_asymmetric(s[k].0, s[i].0);
        }
    }
    assert(has_name(s, name));
    assert forall|i: int| 0 <= i < k implies name_before(#[trigger] s[i].0, name) by {}
    if name_before(s[k].0, name) {
        lemma_name_before_asymmetric(s[k].0, name);
    }
    lemma_place_unique(s, name, k);
}

/// The values of names to which one more was added.
pub proof fn lemma_value_of_push<V>(s: Seq<(Seq<char>, V)>, e: (Seq<char>, V), name: Seq<char>)
    requires
        names_ascend(s.push(e)),
    ensures
        names_ascend(s),
        value_of(s, e.0) is None,
        value_of(s.push(e), name) == if name == e.0 {
            Some(e.1)
        } else {
            value_of(s, name)
        },
{
    let t = s.push(e);
    assert forall|i: int, j: int| 0 <= i < j < s.len() implies name_before(
        #[trigger] s[i].0,
        #[trigger] s[j].0,
    ) by {
        assert(t[i].0 == s[i].0 && t[j].0 == s[j].0);
    }
    assert(t[s.len() as int] == e);
    if has_name(s, e.0) {
        let i = choose|i: int| 0 <= i < s.len() && #[trigger] s[i].0 == e.0;
        assert(t[i].0 == e.0);
        assert(name_before(t[i].0, t[s.len() as int].0));
        lemma_name_before_asymmetric(e.0, e.0);
    }
    if name == e.0 {
        lemma_value_at(t, name, s.len() as int);
    } else if has_name(s, name) {
        let i = choose|i: int| 0 <= i < s.len() && #[trigger] s[i].0 == name;
        assert(t[i] == s[i]);
        lemma_value_at(s, name, i);
        lemma_value_at(t, name, i);
    } else if has_name(t, name) {
        let i = choose|i: int| 0 <= i < t.len() && #[trigger] t[i].0 == name;
        assert(s[i] == t[i]);
    }
}

/// Setting a value keeps the names ascending, gives that value for the name, and
/// leaves every other name as it was.
pub proof fn lemma_with_value<V>(s: Seq<(Seq<char>, V)>, name: Seq<char>, value: V)
    requires
        names_ascend(s),
    ensures
        names_ascend(with_value(s, name, value)),
        value_of(with_value(s, name, value), name) == Some(value),
        forall|other: Seq<char>| other != name ==> value_of(
            #[trigger] with_value(s, name, value),
            other,
        ) == value_of(s, other),
{
    let k = place_of(s, name);
    let t = with_value(s, name, value);
    lemma_place(s, name);
    if k < s.len() && s[k].0 == name {
        assert forall|i: int, j: int| 0 <= i < j < t.len() implies name_before(
            #[trigger] t[i].0,
            #[trigger] t[j].0,
        ) by {
            assert(t[i].0 == s[i].0 && t[j].0 == s[j].0);
        }
        lemma_value_at(t, name, k);
        assert forall|other: Seq<char>| other != name implies value_of(t, other) == value_of(
            s,
            other,
        ) by {
            if has_name(s, other) {
                let i = choose|i: int| 0 <= i < s.len() && #[trigger] s[i].0 == other;
                lemma_value_at(s, other, i);
                assert(t[i] == s[i]);
                lemma_value_at(t, other, i);
            } else if has_name(t, other) {
                let i = choose|i: int| 0 <= i < t.len() && #[trigger] t[i].0 == other;
                assert(s[i].0 == t[i].0);
            }
        }
    } else {
        if k < s.len() {
            lemma_name_total(s[k].0, name);
        }
        assert forall|i: int, j: int| 0 <= i < j < t.len() implies name_before(
            #[trigger] t[i].0,
            #[trigger] t[j].0,
        ) by {
            if j < k {
                assert(t[i] == s[i] && t[j] == s[j]);
            } else if j == k {
                assert(t[i] == s[i]);
            } else {
                assert(t[j] == s[j - 1]);
                if i < k {
                    assert(t[i] == s[i]);
                } else if i == k {
                    if j - 1 > k {
                        assert(name_before(s[k].0, s[j - 1].0));
                        lemma_name_before_transitive(name, s[k].0, s[j - 1].0);
                    }
                } else {
                    assert(t[i] == s[i - 1]);
                }
            }
        }
        assert(t[k] == (name, value));
        lemma_value_at(t, name, k);
        assert forall|other: Seq<char>| other != name implies value_of(t, other) == value_of(
            s,
            other,
        ) by {
            if has_name(s, other) {
                let i = choose|i: int| 0 <= i < s.len() && #[trigger] s[i].0 == other;
                lemma_value_at(s, other, i);
                let i2 = if i < k { i } else { i + 1 };
                assert(t[i2] == s[i]);
                lemma_value_at(t, other, i2);
            } else if has_name(t, other) {
                let i = choose|i: int| 0 <= i < t.len() && #[trigger] t[i].0 == other;
                if i < k {
                    assert(s[i] == t[i]);
                } else if i > k {
                    assert(s[i - 1] == t[i]);
                }
                assert(false);
            }
        }
    }
}

/// What stands in `s` after a value was set stood there before or is that value.
pub proof fn lemma_with_value_from<V>(s: Seq<(Seq<char>, V)>, name: Seq<char>, value: V, k: int)
    requires
        0 <= k < with_value(s, name, value).len(),
    ensures
        with_value(s, name, value)[k] == (name, value) || s.contains(with_value(s, name, value)[k]),
{
    let t = with_value(s, name, value);
    let p = place_of(s, name);
    lemma_place_bound(s, name);
    if p < s.len() && s[p].0 == name {
        if k != p {
            assert(t[k] == s[k]);
        }
    } else if k < p {
        assert(t[k] == s[k]);
    } else if k > p {
        assert(t[k] == s[k - 1]);
    }
}

proof fn lemma_place_bound<V>(s: Seq<(Seq<char>, V)>, name: Seq<char>)
    ensures
        0 <= place_of(s, name) <= s.len(),
    decreases s.len(),
{
    if s.len() > 0 {
        lemma_place_bound(s.drop_last(), name);
    }
}

/// Taking a name out keeps the names ascending and leaves every other name as it
/// was.
pub proof fn lemma_without_name<V>(s: Seq<(Seq<char>, V)>, name: Seq<char>)
    requires
        names_ascend(s),
    ensures
        names_ascend(without_name(s, name)),
        !has_name(without_name(s, name), name),
        forall|other: Seq<char>| other != name ==> value_of(
            #[trigger] without_name(s, name),
            other,
        ) == value_of(s, other),
{
    let k = place_of(s, name);
    let t = without_name(s, name);
    lemma_place(s, name);
    if k < s.len() && s[k].0 == name {
        lemma_value_at(s, name, k);
        assert forall|i: int, j: int| 0 <= i < j < t.len() implies name_before(
            #[trigger] t[i].0,
            #[trigger] t[j].0,
        ) by {
            let i2 = if i < k { i } else { i + 1 };
            let j2 = if j < k { j } else { j + 1 };
            assert(t[i] == s[i2] && t[j] == s[j2]);
        }
        if has_name(t, name) {
            let i = choose|i: int| 0 <= i < t.len() && #[trigger] t[i].0 == name;
            let i2 = if i < k { i } else { i + 1 };
            assert(s[i2].0 == name);
        }
        assert forall|other: Seq<char>| other != name implies value_of(t, other) == value_of(
            s,
            other,
        ) by {
            if has_name(s, other) {
                let i = choose|i: int| 0 <= i < s.len() && #[trigger] s[i].0 == other;
                lemma_value_at(s, other, i);
                let i2 = if i < k { i } else { i - 1 };
                assert(t[i2] == s[i]);
                lemma_value_at(t, other, i2);
            } else if has_name(t, other) {
                let i = choose|i: int| 0 <= i < t.len() && #[trigger] t[i].0 == other;
                let i2 = if i < k { i } else { i + 1 };
                assert(s[i2].0 == other);
            }
        }
    } else if has_name(s, name) {
        let i = choose|i: int| 0 <= i < s.len() && #[trigger] s[i].0 == name;
        lemma_value_at(s, name, i);
    }
}

/// Of two different names, one comes first.
pub proof fn lemma_name_total(a: Seq<char>, b: Seq<char>)
    ensures
        a == b || name_before(a, b) || name_before(b, a),
{
    lemma_bytes_total(encode_utf8(a), encode_utf8(b));
    encode_utf8_decode_utf8(a);
    encode_utf8_decode_utf8(b);
}

proof fn lemma_bytes_total(a: Seq<u8>, b: Seq<u8>)
    ensures
        a == b || bytes_before(a, b) || bytes_before(b, a),
    decreases a.len(),
{
    if a.len() > 0 && b.len() > 0 && a[0] == b[0] {
        lemma_bytes_total(a.skip(1), b.skip(1));
        if a.skip(1) == b.skip(1) {
            assert forall|i: int| 0 <= i < a.len() && a.len() == b.len() implies a[i] == b[i] by {
                if i > 0 {
                    assert(a.skip(1)[i - 1] == b.skip(1)[i - 1]);
                }
            }
            assert(a.skip(1).len() == b.skip(1).len());
            assert(a =~= b);
        }
    } else if a.len() == 0 && b.len() == 0 {
        assert(a =~= b);
    }
}

/// Two ascending sequences that give every name the same value are the same.
pub proof fn lemma_same_values_same_seq<V>(s: Seq<(Seq<char>, V)>, t: Seq<(Seq<char>, V)>)
    requires
        names_ascend(s),
        names_ascend(t),
        forall|name: Seq<char>| #[trigger] value_of(s, name) == value_of(t, name),
    ensures
        s == t,
    decreases s.len(),
{
    if s.len() == 0 {
        if t.len() > 0 {
            lemma_value_at(t, t[0].0, 0);
            assert(value_of(s, t[0].0) == value_of(t, t[0].0));
        }
        assert(s =~= t);
    } else if t.len() == 0 {
        lemma_value_at(s, s[0].0, 0);
        assert(value_of(s, s[0].0) == value_of(t, s[0].0));
    } else {
        let n = s.len() - 1;
        let m = t.len() - 1;
        lemma_value_at(s, s[n].0, n);
        lemma_value_at(t, t[m].0, m);
        assert(value_of(t, s[n].0) == value_of(s, s[n].0));
        assert(value_of(s, t[m].0) == value_of(t, t[m].0));
        let i = choose|i: int| 0 <= i < t.len() && #[trigger] t[i].0 == s[n].0;
        let j = choose|j: int| 0 <= j < s.len() && #[trigger] s[j].0 == t[m].0;
        if i < m {
            assert(name_before(t[i].0, t[m].0));
            if j < n {
                assert(name_before(s[j].0, s[n].0));
                lemma_name_before_asymmetric(t[i].0, t[m].0);
            }
        }
        assert(s[n].0 == t[m].0) by {
            if i < m && j == n {
                lemma_name_before_asymmetric(t[i].0, t[m].0);
            }
            if i == m {
            }
        }
        lemma_value_at(t, s[n].0, m);
        assert(s[n] == t[m]);
        let s2 = s.drop_last();
        let t2 = t.drop_last();
        assert forall|name: Seq<char>| #[trigger] value_of(s2, name) == value_of(t2, name) by {
            assert(value_of(s, name) == value_of(t, name));
            if has_name(s2, name) {
                let a = choose|a: int| 0 <= a < s2.len() && #[trigger] s2[a].0 == name;
                assert(s[a] == s2[a]);
                lemma_value_at(s, name, a);
                lemma_value_at(s2, name, a);
                let b = choose|b: int| 0 <= b < t.len() && #[trigger] t[b].0 == name;
                lemma_name_before_asymmetric(s[a].0, s[n].0);
                assert(b != m);
                assert(t2[b] == t[b]);
                lemma_value_at(t, name, b);
                lemma_value_at(t2, name, b);
            } else if has_name(t2, name) {
                let b = choose|b: int| 0 <= b < t2.len() && #[trigger] t2[b].0 == name;
                assert(t[b] == t2[b]);
                lemma_value_at(t, name, b);
                let a = choose|a: int| 0 <= a < s.len() && #[trigger] s[a].0 == name;
                lemma_name_before_asymmetric(t[b].0, t[m].0);
                assert(a != n);
                assert(s2[a] == s[a]);
                assert(false);
            }
        }
        lemma_same_values_same_seq(s2, t2);
        assert(s =~= s2.push(s[n]));
        assert(t =~= t2.push(t[m]));
    }
}

/// A map from names to values, kept in the order of the names.
#[derive(Debug, Clone, PartialEq)]
pub struct FieldMap<V> {
    entries: Vec<(String, V)>,
}

impl<V> View for FieldMap<V> {
    type V = Seq<(Seq<char>, V)>;

    closed spec fn view(&self) -> Seq<(Seq<char>, V)> {
        self.entries@.map_values(|e: (String, V)| (e.0@, e.1))
    }
}

impl<V> FieldMap<V> {
    /// The names ascend.
    pub open spec fn wf(&self) -> bool {
        names_ascend(self@)
    }

    /// An empty map.
    pub fn new() -> (r: FieldMap<V>)
        ensures
            r.wf(),
            r@ == Seq::<(Seq<char>, V)>::empty(),
    {
        let r = FieldMap { entries: Vec::new() };
        assert(r@ =~= Seq::<(Seq<char>, V)>::empty());
        r
    }

    /// The number of names.
    pub fn len(&self) -> (n: usize)
        ensures
            n == self@.len(),
    {
        self.entries.len()
    }

    /// Whether no name has a value.
    pub fn is_empty(&self) -> (r: bool)
        ensures
            r == (self@.len() == 0),
    {
        self.entries.len() == 0
    }

    /// The name in position `i`.
    pub fn name_at(&self, i: usize) -> (r: &String)
        requires
            i < self@.len(),
        ensures
            r@ == self@[i as int].0,
    {
        &self.entries[i].0
    }

    /// The value in position `i`.
    pub fn value_at(&self, i: usize) -> (r: &V)
        requires
            i < self@.len(),
        ensures
            *r == self@[i as int].1,
    {
        &self.entries[i].1
    }

    /// Where `name` belongs, and whether it is there.
    fn locate(&self, name: &str) -> (r: (usize, bool))
        requires
            self.wf(),
        ensures
            r.0 == place_of(self@, name@),
            r.0 <= self@.len(),
            r.1 == (r.0 < self@.len() && self@[r.0 as int].0 == name@),
            r.1 == has_name(self@, name@),
    {
        let n: usize = self.entries.len();
        let mut low: usize = 0;
        let mut high: usize = n;
        while low < high
            invariant
                n == self@.len(),
                n == self.entries@.len(),
                low <= high <= n,
                self.wf(),
                forall|j: int| 0 <= j < low ==> name_before(#[trigger] self@[j].0, name@),
                forall|j: int| high <= j < n ==> name_before(name@, #[trigger] self@[j].0),
            decreases high - low,
        {
            let mid: usize = low + (high - low) / 2;
            assert(self@[mid as int].0 == self.entries@[mid as int].0@);
            match name_order(self.entries[mid].0.as_str(), name) {
                NameOrder::Before => {
                    proof {
                        assert forall|j: int| 0 <= j < mid + 1 implies name_before(
                            #[trigger] self@[j].0,
                            name@,
                        ) by {
                            if j < mid {
                                lemma_name_before_transitive(self@[j].0, self@[mid as int].0, name@);
                            }
                        }
                    }
                    low = mid + 1;
                },
                NameOrder::Same => {
                    proof {
                        lemma_value_at(self@, name@, mid as int);
                    }
                    return (mid, true);
                },
                NameOrder::After => {
                    proof {
                        assert forall|j: int| mid <= j < n implies name_before(
                            name@,
                            #[trigger] self@[j].0,
                        ) by {
                            if mid < j {
                                lemma_name_before_transitive(name@, self@[mid as int].0, self@[j].0);
                            }
                        }
                    }
                    high = mid;
                },
            }
        }
        proof {
            if low < n {
                lemma_name_before_asymmetric(name@, self@[low as int].0);
            }
            lemma_place_unique(self@, name@, low as int);
            if has_name(self@, name@) {
                let k = choose|k: int| 0 <= k < self@.len() && #[trigger] self@[k].0 == name@;
                lemma_value_at(self@, name@, k);
            }
        }
        (low, false)
    }

    /// Whether `name` has a value.
    pub fn contains_key(&self, name: &str) -> (r: bool)
        requires
            self.wf(),
        ensures
            r == has_name(self@, name@),
    {
        self.locate(name).1
    }

    /// The value of `name`.
    pub fn get(&self, name: &str) -> (r: Option<&V>)
        requires
            self.wf(),
        ensures
            match value_of(self@, name@) {
                Some(v) => r is Some && *r->Some_0 == v,
                None => r is None,
            },
    {
        let (k, found) = self.locate(name);
        if found {
            proof {
                lemma_value_at(self@, name@, k as int);
            }
            Some(&self.entries[k].1)
        } else {
            None
        }
    }

    /// Sets the value of `name`.
    pub fn insert(&mut self, name: String, value: V)
        requires
            old(self).wf(),
        ensures
            final(self).wf(),
            final(self)@ == with_value(old(self)@, name@, value),
    {
        let ghost s = self@;
        let ghost chars = name@;
        proof {
            lemma_with_value(s, name@, value);
        }
        let (k, found) = self.locate(name.as_str());
        if found {
            self.entries.set(k, (name, value));
            assert(self@ =~= s.update(k as int, (chars, value)));
        } else {
            self.entries.insert(k, (name, value));
            assert(self@ =~= s.insert(k as int, (chars, value)));
        }
    }

    /// Puts a name behind every name that is there; the caller keeps the order.
    pub(crate) fn push_last(&mut self, name: String, value: V)
        ensures
            final(self)@ == old(self)@.push((name@, value)),
    {
        let ghost s = self@;
        let ghost chars = name@;
        self.entries.push((name, value));
        assert(self@ =~= s.push((chars, value)));
    }

    /// Takes `name` and its value out.
    pub fn remove(&mut self, name: &str) -> (r: Option<V>)
        requires
            old(self).wf(),
        ensures
            final(self).wf(),
            final(self)@ == without_name(old(self)@, name@),
            r == value_of(old(self)@, name@),
    {
        let ghost s = self@;
        let (k, found) = self.locate(name);
        if found {
            proof {
                lemma_value_at(s, name@, k as int);
            }
            let e = self.entries.remove(k);
            assert(self@ =~= s.remove(k as int));
            assert forall|i: int, j: int| 0 <= i < j < self@.len() implies name_before(
                #[trigger] self@[i].0,
                #[trigger] self@[j].0,
            ) by {
                let i2 = if i < k { i } else { i + 1 };
                let j2 = if j < k { j } else { j + 1 };
                assert(self@[i] == s[i2] && self@[j] == s[j2]);
            }
            Some(e.1)
        } else {
            None
        }
    }
}

impl<V> Default for FieldMap<V> {
    fn default() -> (r: FieldMap<V>)
        ensures
            r.wf(),
            r@ == Seq::<(Seq<char>, V)>::empty(),
    {
        FieldMap::new()
    }
}

} // verus!
