//! How values are read from text: white space, integers, dates and instants.

use vstd::prelude::*;
use vstd::utf8::*;

use crate::data::DateTimeUtc;
use crate::datetime;
use crate::numbers;
use crate::text;

verus! {

// ---------------------------------------------------------------------------
// White space
// ---------------------------------------------------------------------------

/// Text without the white space at its ends is a part of it: all before and behind that
/// part is white space, and its first and last characters are not.
pub proof fn lemma_trimmed(s: Seq<char>) -> (ends: (int, int))
    ensures
        0 <= ends.0 <= ends.1 <= s.len(),
        text::trimmed(s) == s.subrange(ends.0, ends.1),
        forall|i: int| 0 <= i < ends.0 ==> text::white_space(#[trigger] s[i]),
        forall|i: int| ends.1 <= i < s.len() ==> text::white_space(#[trigger] s[i]),
        ends.0 < ends.1 ==> !text::white_space(s[ends.0]) && !text::white_space(s[ends.1 - 1]),
    decreases s.len(),
{
    if s.len() > 0 && text::white_space(s.first()) {
        let t = s.drop_first();
        let e = lemma_trimmed(t);
        assert(t.subrange(e.0, e.1) =~= s.subrange(e.0 + 1, e.1 + 1));
        assert forall|i: int| 0 <= i < e.0 + 1 implies text::white_space(#[trigger] s[i]) by {
            if i > 0 {
                assert(t[i - 1] == s[i]);
            }
        }
        assert forall|i: int| e.1 + 1 <= i < s.len() implies text::white_space(#[trigger] s[i]) by {
            assert(t[i - 1] == s[i]);
        }
        if e.0 < e.1 {
            assert(t[e.0] == s[e.0 + 1] && t[e.1 - 1] == s[e.1]);
        }
        (e.0 + 1, e.1 + 1)
    } else if s.len() > 0 && text::white_space(s.last()) {
        let t = s.drop_last();
        let e = lemma_trimmed(t);
        assert(t.subrange(e.0, e.1) =~= s.subrange(e.0, e.1));
        assert forall|i: int| 0 <= i < e.0 implies text::white_space(#[trigger] s[i]) by {
            assert(t[i] == s[i]);
        }
        assert forall|i: int| e.1 <= i < s.len() implies text::white_space(#[trigger] s[i]) by {
            if i < t.len() {
                assert(t[i] == s[i]);
            }
        }
        if e.0 < e.1 {
            assert(t[e.0] == s[e.0] && t[e.1 - 1] == s[e.1 - 1]);
        }
        e
    } else {
        assert(s.subrange(0, s.len() as int) =~= s);
        (0, s.len() as int)
    }
}

/// White space around text is taken off, all of it and nothing else.
pub proof fn lemma_padding(before: Seq<char>, s: Seq<char>, after: Seq<char>)
    requires
        forall|i: int| 0 <= i < before.len() ==> text::white_space(#[trigger] before[i]),
        forall|i: int| 0 <= i < after.len() ==> text::white_space(#[trigger] after[i]),
        s.len() > 0 ==> !text::white_space(s.first()) && !text::white_space(s.last()),
    ensures
        text::trimmed(before + s + after) == s,
{
    let all = before + s + after;
    let e = lemma_trimmed(all);
    let b = before.len() as int;
    let c = b + s.len();
    if s.len() == 0 {
        if e.0 < e.1 {
            if e.0 < b {
                assert(all[e.0] == before[e.0]);
            } else {
                assert(all[e.0] == after[e.0 - b]);
            }
        }
        assert(text::trimmed(all) =~= s);
    } else {
        assert(all[b] == s[0] && all[c - 1] == s[s.len() - 1]);
        assert(e.0 <= b && c <= e.1);
        if e.0 < b {
            assert(all[e.0] == before[e.0]);
        }
        if c < e.1 {
            assert(all[e.1 - 1] == after[e.1 - 1 - c]);
        }
        assert(text::trimmed(all) =~= s);
    }
}

// ---------------------------------------------------------------------------
// Integers
// ---------------------------------------------------------------------------

/// One more digit at the end of an integer makes it ten times as far from zero, and that
/// digit more.
pub proof fn lemma_one_more_digit(b: Seq<u8>, n: i64, k: u8)
    requires
        numbers::parsed_integer(b) == Some(n),
        k <= 9,
    ensures
        ({
            let longer = b.push((48 + k) as u8);
            let value = if b[0] == 45 {
                10 * n - k
            } else {
                10 * n + k
            };
            numbers::parsed_integer(longer) == if i64::MIN <= value <= i64::MAX {
                Some(value as i64)
            } else {
                None
            }
        }),
{
    let longer = b.push((48 + k) as u8);
    let signed = b.len() > 0 && (b[0] == 45 || b[0] == 43);
    let digits = if signed {
        b.skip(1)
    } else {
        b
    };
    assert(b.len() > 0);
    assert(digits.len() > 0);
    let more = digits.push((48 + k) as u8);
    assert(longer[0] == b[0]);
    assert((if signed {
        longer.skip(1)
    } else {
        longer
    }) =~= more);
    assert(more.drop_last() =~= digits);
    assert forall|i: int| 0 <= i < more.len() implies 48 <= #[trigger] more[i] <= 57 by {
        if i < digits.len() {
            assert(more[i] == digits[i]);
        }
    }
    assert(numbers::all_digits(more));
    assert(numbers::digits_value(more) == 10 * numbers::digits_value(digits) + k);
}

/// A single digit is read as what it says, a sign alone or nothing at all as no integer.
pub proof fn lemma_single_digit(k: u8)
    requires
        k <= 9,
    ensures
        numbers::parsed_integer(seq![(48 + k) as u8]) == Some(k as i64),
        numbers::parsed_integer(seq![45u8, (48 + k) as u8]) == Some((-(k as int)) as i64),
        numbers::parsed_integer(seq![43u8, (48 + k) as u8]) == Some(k as i64),
        numbers::parsed_integer(seq![45u8]) is None,
        numbers::parsed_integer(seq![43u8]) is None,
        numbers::parsed_integer(Seq::empty()) is None,
{
    let d = seq![(48 + k) as u8];
    reveal_with_fuel(numbers::digits_value, 2);
    assert(d.drop_last() =~= Seq::empty());
    assert(numbers::digits_value(d) == k);
    assert(seq![45u8, (48 + k) as u8].skip(1) =~= d);
    assert(seq![43u8, (48 + k) as u8].skip(1) =~= d);
    assert(seq![45u8].skip(1) =~= Seq::empty());
    assert(seq![43u8].skip(1) =~= Seq::empty());
}

/// What holds another byte than a digit behind its first is no integer.
pub proof fn lemma_no_other_bytes(b: Seq<u8>, i: int)
    requires
        0 < i < b.len(),
        !(48 <= b[i] <= 57),
    ensures
        numbers::parsed_integer(b) is None,
{
    assert(b.skip(1)[i - 1] == b[i]);
}

// ---------------------------------------------------------------------------
// Dates and instants
// ---------------------------------------------------------------------------

/// A day is read as its midnight: days that follow each other lie 86,400 seconds apart,
/// and the first day of 1970 is second zero.
pub proof fn lemma_days_apart(
    day: i32,
    first: Option<DateTimeUtc>,
    next: Option<DateTimeUtc>,
    epoch: Option<DateTimeUtc>,
)
    requires
        day < i32::MAX,
        call_ensures(datetime::first_instant, (None, None, Some(day)), first),
        call_ensures(datetime::first_instant, (None, None, Some((day + 1) as i32)), next),
        call_ensures(datetime::first_instant, (None, None, Some(719_163i32)), epoch),
    ensures
        first is Some && next is Some ==> next->Some_0@.0 == first->Some_0@.0 + 86_400,
        first is Some ==> first->Some_0@.1 == 0,
        epoch is Some && epoch->Some_0@ == (0i64, 0u32),
{
}

/// Of several readings of a literal the first that there is counts: in RFC 3339, then
/// without an offset, then as a day.
pub proof fn lemma_first_reading(
    rfc3339: Option<(i64, u32)>,
    naive: Option<(i64, u32)>,
    day: Option<i32>,
    r: Option<DateTimeUtc>,
)
    requires
        call_ensures(datetime::first_instant, (rfc3339, naive, day), r),
        r is Some,
    ensures
        rfc3339 is Some ==> r->Some_0@ == rfc3339->Some_0,
        rfc3339 is None && naive is Some ==> r->Some_0@ == naive->Some_0,
        rfc3339 is Some || naive is Some || day is Some,
{
}

/// The microseconds of an instant are those that it was made of; an instant between two
/// microseconds has those of the one before it.
pub proof fn lemma_micros_read_back(
    micros: i64,
    made: Option<DateTimeUtc>,
    back: i64,
    other: DateTimeUtc,
    read: i64,
    again: Option<DateTimeUtc>,
)
    requires
        call_ensures(DateTimeUtc::from_timestamp_micros, (micros,), made),
        made is Some ==> call_ensures(DateTimeUtc::timestamp_micros, (&made->Some_0,), back),
        call_ensures(DateTimeUtc::timestamp_micros, (&other,), read),
        call_ensures(DateTimeUtc::from_timestamp_micros, (read,), again),
    ensures
        made is Some ==> back == micros,
        other@.1 < 1_000_000_000 ==> again is Some && again->Some_0@.0 == other@.0
            && again->Some_0@.1 <= other@.1 < again->Some_0@.1 + 1000,
{
}

// ---------------------------------------------------------------------------
// Spelling
// ---------------------------------------------------------------------------

/// Whether text is a decimal number as it is commonly written: digits alone, with no zero
/// in front of others.
pub open spec fn is_plain_decimal(t: Seq<char>) -> bool {
    &&& t.len() > 0
    &&& forall|i: int| 0 <= i < t.len() ==> '0' <= #[trigger] t[i] <= '9'
    &&& t[0] == '0' ==> t.len() == 1
}

proof fn lemma_plain_decimal(n: nat)
    ensures
        is_plain_decimal(numbers::decimal(n)),
        numbers::decimal(n)[0] == '0' ==> n == 0,
    decreases n,
{
    let t = numbers::decimal(n);
    let d = n % 10;
    assert('0' <= numbers::digit_char(d as int) <= '9');
    if n >= 10 {
        let front = numbers::decimal(n / 10);
        lemma_plain_decimal(n / 10);
        assert(t =~= front.push(numbers::digit_char(d as int)));
        assert(t[0] == front[0]);
        assert forall|i: int| 0 <= i < t.len() implies '0' <= #[trigger] t[i] <= '9' by {
            if i < front.len() {
                assert(t[i] == front[i]);
            }
        }
    } else {
        assert(t[0] == numbers::digit_char(n as int));
    }
}

/// An integer is written in decimal digits, a negative one behind a minus sign; and a truth
/// value as a word.
pub proof fn lemma_spelling(i: i64, b: bool, number: String, word: String)
    requires
        call_ensures(numbers::integer_to_text, (i,), number),
        call_ensures(numbers::bool_to_text, (b,), word),
    ensures
        i >= 0 ==> is_plain_decimal(number@),
        i < 0 ==> number@.len() > 0 && number@[0] == '-' && is_plain_decimal(number@.skip(1))
            && number@[1] != '0',
        b ==> word@ == "true"@,
        !b ==> word@ == "false"@,
{
    if i < 0 {
        let digits = numbers::decimal((-i) as nat);
        lemma_plain_decimal((-i) as nat);
        assert(number@.skip(1) =~= digits);
        assert(number@[1] == digits[0]);
    } else {
        lemma_plain_decimal(i as nat);
    }
}

/// A text is a word where it has the bytes of the word, but for capitals in place of small
/// letters.
pub proof fn lemma_word(t: &str, word: &str, r: bool)
    requires
        call_ensures(numbers::is_word, (t, word), r),
    ensures
        r <==> {
            let a = encode_utf8(t@);
            let b = encode_utf8(word@);
            &&& a.len() == b.len()
            &&& forall|i: int|
                0 <= i < a.len() ==> (if 65 <= #[trigger] a[i] <= 90 {
                    b[i] == a[i] + 32
                } else {
                    b[i] == a[i]
                })
        },
{
    let a = encode_utf8(t@);
    let b = encode_utf8(word@);
    if r {
        assert forall|i: int| 0 <= i < a.len() implies (if 65 <= #[trigger] a[i] <= 90 {
            b[i] == a[i] + 32
        } else {
            b[i] == a[i]
        }) by {
            assert(numbers::lower_byte(a[i]) == b[i]);
        }
    }
}

/// The value of a hexadecimal digit.
pub open spec fn hex_digit(c: char) -> int {
    if '0' <= c <= '9' {
        c as int - '0' as int
    } else {
        c as int - 'a' as int + 10
    }
}

/// The number that hexadecimal digits spell.
pub open spec fn hex_value(t: Seq<char>) -> int
    decreases t.len(),
{
    if t.len() == 0 {
        0
    } else {
        16 * hex_value(t.drop_last()) + hex_digit(t.last())
    }
}

/// Whether a character is a hexadecimal digit, the letters small.
pub open spec fn is_hex_digit(c: char) -> bool {
    '0' <= c <= '9' || 'a' <= c <= 'f'
}

/// A number is spelled by hexadecimal digits, with no zero in front of others.
pub proof fn lemma_hexadecimal(n: nat)
    ensures
        hex_value(numbers::hexadecimal(n)) == n,
        forall|i: int|
            0 <= i < numbers::hexadecimal(n).len() ==> is_hex_digit(
                #[trigger] numbers::hexadecimal(n)[i],
            ),
        numbers::hexadecimal(n).len() > 0,
        numbers::hexadecimal(n)[0] == '0' ==> n == 0 && numbers::hexadecimal(n).len() == 1,
    decreases n,
{
    let t = numbers::hexadecimal(n);
    let c = numbers::hex_char((n % 16) as int);
    assert(is_hex_digit(c) && hex_digit(c) == n % 16);
    if n >= 16 {
        let front = numbers::hexadecimal(n / 16);
        lemma_hexadecimal(n / 16);
        assert(t =~= front.push(c));
        assert(t.drop_last() =~= front);
        assert(t[0] == front[0]);
        assert forall|i: int| 0 <= i < t.len() implies is_hex_digit(#[trigger] t[i]) by {
            if i < front.len() {
                assert(t[i] == front[i]);
            }
        }
    } else {
        assert(t =~= seq![c]);
        assert(t.drop_last() =~= Seq::<char>::empty());
        assert(hex_value(t.drop_last()) == 0);
    }
}

/// The last digits of a number: as many as were asked for, and each that of its place.
pub proof fn lemma_last_digits(n: nat, width: nat)
    ensures
        numbers::hexadecimal_of(n, width).len() == width,
        width > 0 ==> hex_digit(numbers::hexadecimal_of(n, width).last()) == n % 16,
        width > 0 ==> is_hex_digit(numbers::hexadecimal_of(n, width).last()),
        width > 0 ==> numbers::hexadecimal_of(n, width).drop_last() == numbers::hexadecimal_of(
            n / 16,
            (width - 1) as nat,
        ),
    decreases width,
{
    if width > 0 {
        lemma_last_digits(n / 16, (width - 1) as nat);
        let front = numbers::hexadecimal_of(n / 16, (width - 1) as nat);
        let c = numbers::hex_char((n % 16) as int);
        assert(is_hex_digit(c) && hex_digit(c) == n % 16);
        assert(front.push(c).drop_last() =~= front);
    }
}

/// An instant is given by its seconds, as far as the calendar reaches, and by nanoseconds of
/// less than one second; those of a leap second come only in the last second of
/// a minute.
pub proof fn lemma_instants(secs: i64, nanos: u32, r: Option<DateTimeUtc>)
    requires
        call_ensures(DateTimeUtc::from_timestamp, (secs, nanos), r),
    ensures
        r is Some ==> r->Some_0@ == (secs, nanos),
        secs < -8_334_601_228_800 || secs > 8_210_266_876_799 ==> r is None,
        -8_334_601_228_800 <= secs <= 8_210_266_876_799 ==> {
            &&& nanos < 1_000_000_000 ==> r is Some
            &&& 1_000_000_000 <= nanos < 2_000_000_000 ==> (r is Some <==> secs as int % 60 == 59)
            &&& nanos >= 2_000_000_000 ==> r is None
        },
{
}

} // verus!
