//! Numbers as text, and what the arithmetic of floating point makes of them.

use vstd::prelude::*;
use vstd::string::*;
use vstd::utf8::*;

use crate::text;

verus! {

// ---------------------------------------------------------------------------
// Integers
// ---------------------------------------------------------------------------

/// The character of a decimal digit.
pub open spec fn digit_char(d: int) -> char {
    (48 + d) as char
}

/// The decimal digits of `n`.
pub open spec fn decimal(n: nat) -> Seq<char>
    decreases n,
{
    if n < 10 {
        seq![digit_char(n as int)]
    } else {
        decimal(n / 10).push(digit_char((n % 10) as int))
    }
}

/// An integer as text.
pub open spec fn integer_text(i: i64) -> Seq<char> {
    if i < 0 {
        seq!['-'] + decimal((-i) as nat)
    } else {
        decimal(i as nat)
    }
}

fn digit_text(d: u64) -> (r: &'static str)
    requires
        d < 10,
    ensures
        r@ == seq![digit_char(d as int)],
{
    proof {
        reveal_strlit("0");
        reveal_strlit("1");
        reveal_strlit("2");
        reveal_strlit("3");
        reveal_strlit("4");
        reveal_strlit("5");
        reveal_strlit("6");
        reveal_strlit("7");
        reveal_strlit("8");
        reveal_strlit("9");
    }
    let r: &'static str = match d {
        0 => "0",
        1 => "1",
        2 => "2",
        3 => "3",
        4 => "4",
        5 => "5",
        6 => "6",
        7 => "7",
        8 => "8",
        _ => "9",
    };
    assert(r@ =~= seq![digit_char(d as int)]);
    r
}

pub fn push_decimal(s: &mut String, n: u64)
    ensures
        final(s)@ == old(s)@ + decimal(n as nat),
    decreases n,
{
    let ghost before = s@;
    if n < 10 {
        s.append(digit_text(n));
    } else {
        push_decimal(s, n / 10);
        s.append(digit_text(n % 10));
        assert(s@ =~= before + decimal(n as nat));
    }
}

/// The character of a hexadecimal digit, in lower case.
pub open spec fn hex_char(d: int) -> char {
    if d < 10 {
        (48 + d) as char
    } else {
        (87 + d) as char
    }
}

/// The hexadecimal digits of `n`.
pub open spec fn hexadecimal(n: nat) -> Seq<char>
    decreases n,
{
    if n < 16 {
        seq![hex_char(n as int)]
    } else {
        hexadecimal(n / 16).push(hex_char((n % 16) as int))
    }
}

/// The last `width` hexadecimal digits of `n`, with zeros in front where it has fewer.
pub open spec fn hexadecimal_of(n: nat, width: nat) -> Seq<char>
    decreases width,
{
    if width == 0 {
        Seq::empty()
    } else {
        hexadecimal_of(n / 16, (width - 1) as nat).push(hex_char((n % 16) as int))
    }
}

fn hex_digit_text(d: u32) -> (r: &'static str)
    requires
        d < 16,
    ensures
        r@ == seq![hex_char(d as int)],
{
    if d < 10 {
        return digit_text(d as u64);
    }
    proof {
        reveal_strlit("a");
        reveal_strlit("b");
        reveal_strlit("c");
        reveal_strlit("d");
        reveal_strlit("e");
        reveal_strlit("f");
    }
    let r: &'static str = match d {
        10 => "a",
        11 => "b",
        12 => "c",
        13 => "d",
        14 => "e",
        _ => "f",
    };
    assert(r@ =~= seq![hex_char(d as int)]);
    r
}

/// Appends the hexadecimal digits of a number.
pub fn push_hexadecimal(s: &mut String, n: u32)
    ensures
        final(s)@ == old(s)@ + hexadecimal(n as nat),
    decreases n,
{
    let ghost before = s@;
    if n < 16 {
        s.append(hex_digit_text(n));
    } else {
        push_hexadecimal(s, n / 16);
        s.append(hex_digit_text(n % 16));
        assert(s@ =~= before + hexadecimal(n as nat));
    }
}

/// Appends the last `width` hexadecimal digits of a number.
pub fn push_hexadecimal_of(s: &mut String, n: u32, width: u32)
    ensures
        final(s)@ == old(s)@ + hexadecimal_of(n as nat, width as nat),
    decreases width,
{
    let ghost before = s@;
    if width > 0 {
        push_hexadecimal_of(s, n / 16, width - 1);
        s.append(hex_digit_text(n % 16));
    }
    assert(s@ =~= before + hexadecimal_of(n as nat, width as nat));
}

/// An integer as text.
pub fn integer_to_text(i: i64) -> (r: String)
    ensures
        r@ == integer_text(i),
{
    let mut r: String = String::new();
    if i < 0 {
        proof {
            reveal_strlit("-");
        }
        r.append("-");
        let magnitude: u64 = (-(i as i128)) as u64;
        push_decimal(&mut r, magnitude);
        assert(r@ =~= seq!['-'] + decimal((-i) as nat));
    } else {
        push_decimal(&mut r, i as u64);
        assert(r@ =~= decimal(i as nat));
    }
    r
}

/// A truth value as text.
pub open spec fn bool_text(b: bool) -> Seq<char> {
    if b {
        "true"@
    } else {
        "false"@
    }
}

/// A truth value as text.
pub fn bool_to_text(b: bool) -> (r: String)
    ensures
        r@ == bool_text(b),
{
    if b {
        "true".to_owned()
    } else {
        "false".to_owned()
    }
}

/// The number that decimal digits spell.
pub open spec fn digits_value(b: Seq<u8>) -> nat
    decreases b.len(),
{
    if b.len() == 0 {
        0
    } else {
        10 * digits_value(b.drop_last()) + (b.last() - 48) as nat
    }
}

/// Whether `b` is one or more decimal digits.
pub open spec fn all_digits(b: Seq<u8>) -> bool {
    b.len() > 0 && forall|i: int| 0 <= i < b.len() ==> 48 <= #[trigger] b[i] <= 57
}

/// The integer that text spells: a sign or none, and decimal digits that stay in
/// the range of 64 bits.
pub open spec fn parsed_integer(b: Seq<u8>) -> Option<i64> {
    let negative = b.len() > 0 && b[0] == 45;
    let signed = b.len() > 0 && (b[0] == 45 || b[0] == 43);
    let digits = if signed {
        b.skip(1)
    } else {
        b
    };
    if !all_digits(digits) {
        None
    } else if negative && digits_value(digits) <= 0x8000_0000_0000_0000 {
        Some((-(digits_value(digits) as int)) as i64)
    } else if !negative && digits_value(digits) <= 0x7fff_ffff_ffff_ffff {
        Some(digits_value(digits) as i64)
    } else {
        None
    }
}

/// The decimal digits of a number are ASCII digits that spell it.
proof fn lemma_decimal(n: nat)
    ensures
        is_ascii_chars(decimal(n)),
        all_digits(encode_utf8(decimal(n))),
        digits_value(encode_utf8(decimal(n))) == n,
        decimal(n).len() > 0,
        forall|i: int| 0 <= i < decimal(n).len() ==> '0' <= #[trigger] decimal(n)[i] <= '9',
    decreases n,
{
    let s = decimal(n);
    if n >= 10 {
        lemma_decimal(n / 10);
        let front = decimal(n / 10);
        assert(s == front.push(digit_char((n % 10) as int)));
        assert forall|i: int| 0 <= i < s.len() implies '0' <= #[trigger] s[i] <= '9' by {
            if i < front.len() {
                assert(s[i] == front[i]);
            }
        }
        is_ascii_chars_encode_utf8(s);
        is_ascii_chars_encode_utf8(front);
        let b = encode_utf8(s);
        assert(b.drop_last() =~= encode_utf8(front)) by {
            assert forall|i: int| 0 <= i < front.len() implies b[i] == encode_utf8(front)[i] by {
                assert(s[i] == front[i]);
            }
        }
        assert(s.last() as u8 == b.last());
        assert forall|i: int| 0 <= i < b.len() implies 48 <= #[trigger] b[i] <= 57 by {
            assert(s[i] as u8 == b[i]);
        }
        assert(digits_value(b) == 10 * digits_value(b.drop_last()) + (b.last() - 48) as nat);
    } else {
        is_ascii_chars_encode_utf8(s);
        let b = encode_utf8(s);
        assert(s[0] as u8 == b[0]);
        assert(b.drop_last() =~= Seq::<u8>::empty());
        assert(digits_value(b.drop_last()) == 0);
        assert(digits_value(b) == n);
    }
}

/// An integer is read back from its text, at whose ends there is no white space.
pub proof fn lemma_integer_text_reads_back(i: i64)
    ensures
        parsed_integer(encode_utf8(integer_text(i))) == Some(i),
        text::trimmed(integer_text(i)) == integer_text(i),
{
    let s = integer_text(i);
    if i < 0 {
        let digits = decimal((-i) as nat);
        lemma_decimal((-i) as nat);
        assert(s == seq!['-'] + digits);
        assert forall|k: int| 0 <= k < s.len() implies '\0' <= #[trigger] s[k] <= '\u{7f}' by {
            if k > 0 {
                assert(s[k] == digits[k - 1]);
            }
        }
        is_ascii_chars_encode_utf8(s);
        is_ascii_chars_encode_utf8(digits);
        let b = encode_utf8(s);
        assert(s[0] as u8 == b[0]);
        assert(b.skip(1) =~= encode_utf8(digits)) by {
            assert forall|k: int| 0 <= k < digits.len() implies b[k + 1] == encode_utf8(digits)[k] by {
                assert(s[k + 1] == digits[k]);
                assert(s[k + 1] as u8 == b[k + 1]);
            }
        }
        assert(s.last() == digits.last());
    } else {
        lemma_decimal(i as nat);
        let b = encode_utf8(s);
        assert(48 <= b[0] <= 57);
    }
}

/// Reads an integer.
#[verifier::rlimit(60)]
pub fn parse_integer(text: &str) -> (r: Option<i64>)
    ensures
        r == parsed_integer(encode_utf8(text@)),
{
    let bytes: &[u8] = text.as_bytes();
    let ghost b = bytes@;
    let n: usize = bytes.len();
    let negative: bool = n > 0 && bytes[0] == 45;
    let signed: bool = n > 0 && (bytes[0] == 45 || bytes[0] == 43);
    let start: usize = if signed {
        1
    } else {
        0
    };
    let ghost digits = if signed {
        b.skip(1)
    } else {
        b
    };
    assert(forall|i: int| 0 <= i < digits.len() ==> #[trigger] digits[i] == b[start + i]);
    if start >= n {
        return None;
    }
    let mut value: u64 = 0;
    let mut big: bool = false;
    let mut i: usize = start;
    assert(digits.take(0) =~= Seq::empty());
    while i < n
        invariant
            b == bytes@,
            b == encode_utf8(text@),
            n == b.len(),
            negative == (n > 0 && b[0] == 45),
            signed == (n > 0 && (b[0] == 45 || b[0] == 43)),
            digits == (if signed {
                b.skip(1)
            } else {
                b
            }),
            start <= i <= n,
            digits.len() == n - start,
            forall|k: int| 0 <= k < digits.len() ==> #[trigger] digits[k] == b[start + k],
            forall|k: int| 0 <= k < i - start ==> 48 <= #[trigger] digits[k] <= 57,
            big ==> digits_value(digits.take(i - start)) > 0x8000_0000_0000_0000,
            !big ==> value == digits_value(digits.take(i - start)) && value
                <= 0x8000_0000_0000_0000,
        decreases n - i,
    {
        let c: u8 = bytes[i];
        assert(digits[i - start] == c);
        if c < 48 || c > 57 {
            assert(!all_digits(digits));
            return None;
        }
        proof {
            assert(digits.take(i + 1 - start).drop_last() =~= digits.take(i - start));
            assert(digits.take(i + 1 - start).last() == c);
        }
        if !big {
            let next: u128 = (value as u128) * 10 + (c - 48) as u128;
            if next > 0x8000_0000_0000_0000 {
                big = true;
            } else {
                value = next as u64;
            }
        }
        i = i + 1;
    }
    assert(digits.take(n - start) =~= digits);
    if big {
        return None;
    }
    if negative {
        Some((-(value as i128)) as i64)
    } else if value <= 0x7fff_ffff_ffff_ffff {
        Some(value as i64)
    } else {
        None
    }
}

// ---------------------------------------------------------------------------
// Words
// ---------------------------------------------------------------------------

/// A byte with an ASCII capital made small.
pub open spec fn lower_byte(c: u8) -> u8 {
    if 65 <= c <= 90 {
        (c + 32) as u8
    } else {
        c
    }
}

/// Whether the bytes of a text are those of `word`, ASCII capitals made small.
pub open spec fn reads_as(b: Seq<u8>, word: Seq<u8>) -> bool {
    &&& b.len() == word.len()
    &&& forall|i: int| 0 <= i < b.len() ==> lower_byte(#[trigger] b[i]) == word[i]
}

/// Whether a text is `word`, ASCII capitals made small.
pub fn is_word(text: &str, word: &str) -> (r: bool)
    ensures
        r == reads_as(encode_utf8(text@), encode_utf8(word@)),
{
    let a: &[u8] = text.as_bytes();
    let b: &[u8] = word.as_bytes();
    if a.len() != b.len() {
        return false;
    }
    let mut i: usize = 0;
    while i < a.len()
        invariant
            i <= a@.len(),
            a@.len() == b@.len(),
            a@ == encode_utf8(text@),
            b@ == encode_utf8(word@),
            forall|k: int| 0 <= k < i ==> lower_byte(#[trigger] a@[k]) == b@[k],
        decreases a@.len() - i,
    {
        let c: u8 = a[i];
        let small: u8 = if 65 <= c && c <= 90 {
            c + 32
        } else {
            c
        };
        if small != b[i] {
            assert(lower_byte(a@[i as int]) != b@[i as int]);
            return false;
        }
        i = i + 1;
    }
    true
}

// ---------------------------------------------------------------------------
// Floating point
// ---------------------------------------------------------------------------

/// A number to be represented in other ways.
#[derive(Debug, Clone, Copy, PartialEq, Eq, Structural)]
pub enum Number {
    /// An integer.
    Integer { value: i64 },
    /// The number of a 64-bit pattern.
    Float { bits: u64 },
    /// A number of microseconds, in seconds.
    Micros { micros: i64 },
}

/// A number in other representations. The arithmetic of floating point is not
/// part of this library: whoever calls it hands in a function that gives these.
#[derive(Debug, Clone)]
pub struct Forms {
    /// The nearest 64-bit number, by its pattern.
    pub bits: u64,
    /// The nearest 32-bit number, by its pattern.
    pub narrow: u32,
    /// The integer without the fraction.
    pub integer: i64,
    /// The number as text.
    pub text: String,
}

/// Whether `forms` may give `f` for a number.
pub open spec fn gives<F: Fn(Number) -> Forms>(forms: F, n: Number, f: Forms) -> bool {
    call_ensures(forms, (n,), f)
}

/// Whether `forms` may give this 64-bit number.
pub open spec fn gives_bits<F: Fn(Number) -> Forms>(forms: F, n: Number, bits: u64) -> bool {
    exists|f: Forms| #[trigger] gives(forms, n, f) && f.bits == bits
}

/// Whether `forms` may give this 32-bit number.
pub open spec fn gives_narrow<F: Fn(Number) -> Forms>(forms: F, n: Number, narrow: u32) -> bool {
    exists|f: Forms| #[trigger] gives(forms, n, f) && f.narrow == narrow
}

/// Whether `forms` may give this integer.
pub open spec fn gives_integer<F: Fn(Number) -> Forms>(forms: F, n: Number, integer: i64) -> bool {
    exists|f: Forms| #[trigger] gives(forms, n, f) && f.integer == integer
}

/// Whether `forms` may give this text.
pub open spec fn gives_text<F: Fn(Number) -> Forms>(forms: F, n: Number, text: Seq<char>) -> bool {
    exists|f: Forms| #[trigger] gives(forms, n, f) && f.text@ == text
}

} // verus!
