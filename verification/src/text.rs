//! Text.

use vstd::prelude::*;

verus! {

/// Whether a character is white space, as Unicode has it.
pub open spec fn white_space(c: char) -> bool {
    ||| '\u{9}' <= c <= '\u{d}'
    ||| c == ' '
    ||| c == '\u{85}'
    ||| c == '\u{a0}'
    ||| c == '\u{1680}'
    ||| '\u{2000}' <= c <= '\u{200a}'
    ||| c == '\u{2028}'
    ||| c == '\u{2029}'
    ||| c == '\u{202f}'
    ||| c == '\u{205f}'
    ||| c == '\u{3000}'
}

/// Text without the white space at its ends.
pub open spec fn trimmed(text: Seq<char>) -> Seq<char>
    decreases text.len(),
{
    if text.len() > 0 && white_space(text.first()) {
        trimmed(text.drop_first())
    } else if text.len() > 0 && white_space(text.last()) {
        trimmed(text.drop_last())
    } else {
        text
    }
}

fn is_white_space(c: char) -> (r: bool)
    ensures
        r == white_space(c),
{
    ('\u{9}' <= c && c <= '\u{d}') || c == ' ' || c == '\u{85}' || c == '\u{a0}' || c == '\u{1680}'
        || ('\u{2000}' <= c && c <= '\u{200a}') || c == '\u{2028}' || c == '\u{2029}' || c
        == '\u{202f}' || c == '\u{205f}' || c == '\u{3000}'
}

/// Takes the white space off the ends of text.
pub fn trim(text: &str) -> (r: &str)
    ensures
        r@ == trimmed(text@),
{
    let n: usize = text.unicode_len();
    let mut from: usize = 0;
    assert(text@.subrange(0, n as int) =~= text@);
    while from < n && is_white_space(text.get_char(from))
        invariant
            n == text@.len(),
            from <= n,
            trimmed(text@) == trimmed(text@.subrange(from as int, n as int)),
        decreases n - from,
    {
        proof {
            let s = text@.subrange(from as int, n as int);
            assert(s.first() == text@[from as int]);
            assert(s.drop_first() =~= text@.subrange(from + 1, n as int));
        }
        from = from + 1;
    }
    let mut to: usize = n;
    while from < to && is_white_space(text.get_char(to - 1))
        invariant
            n == text@.len(),
            from <= to <= n,
            from < to ==> !white_space(text@[from as int]),
            trimmed(text@) == trimmed(text@.subrange(from as int, to as int)),
        decreases to,
    {
        proof {
            let s = text@.subrange(from as int, to as int);
            assert(s.first() == text@[from as int]);
            assert(s.last() == text@[to - 1]);
            assert(s.drop_last() =~= text@.subrange(from as int, to - 1));
        }
        to = to - 1;
    }
    proof {
        let s = text@.subrange(from as int, to as int);
        if from < to {
            assert(s.first() == text@[from as int]);
            assert(s.last() == text@[to - 1]);
        }
    }
    text.substring_char(from, to)
}

} // verus!
