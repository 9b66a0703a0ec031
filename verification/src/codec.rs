//! Byte-level reading and writing.
//!
//! Every on-disk part is described twice over plain byte sequences: a `put_*`
//! function gives the bytes of a value, and a `take_*` function gives the value
//! found at a position together with the position behind it. The executable
//! readers and writers are proved against these, and the lemmas at the end
//! relate the two: where the bytes of a value stand, taking gives that value.

use vstd::bytes::*;
use vstd::prelude::*;
use vstd::slice::*;
use vstd::utf8::*;

use crate::error::{LaurusError, Utf8Fault};

verus! {

// ---------------------------------------------------------------------------
// What is read
// ---------------------------------------------------------------------------

/// The value found at a position and the position behind it.
pub type Taken<T> = Result<(T, int), LaurusError>;

/// One byte.
pub open spec fn take_u8(b: Seq<u8>, p: int, what: &'static str) -> Taken<u8> {
    if 0 <= p < b.len() {
        Ok((b[p], p + 1))
    } else {
        Err(LaurusError::Truncated { what })
    }
}

/// `n` bytes.
pub open spec fn take_raw(b: Seq<u8>, p: int, n: int, what: &'static str) -> Taken<Seq<u8>> {
    if 0 <= p <= p + n <= b.len() {
        Ok((b.subrange(p, p + n), p + n))
    } else {
        Err(LaurusError::Truncated { what })
    }
}

/// A 16-bit integer, least significant byte first.
pub open spec fn take_u16(b: Seq<u8>, p: int, what: &'static str) -> Taken<u16> {
    match take_raw(b, p, 2, what) {
        Err(e) => Err(e),
        Ok((s, q)) => Ok((spec_u16_from_le_bytes(s), q)),
    }
}

/// A 32-bit integer, least significant byte first.
pub open spec fn take_u32(b: Seq<u8>, p: int, what: &'static str) -> Taken<u32> {
    match take_raw(b, p, 4, what) {
        Err(e) => Err(e),
        Ok((s, q)) => Ok((spec_u32_from_le_bytes(s), q)),
    }
}

/// A 64-bit integer, least significant byte first.
pub open spec fn take_u64(b: Seq<u8>, p: int, what: &'static str) -> Taken<u64> {
    match take_raw(b, p, 8, what) {
        Err(e) => Err(e),
        Ok((s, q)) => Ok((spec_u64_from_le_bytes(s), q)),
    }
}

/// The number spelled in groups of seven bits, least significant group first,
/// by at most `room` bytes of `b` from `p` on; every byte but the last has its
/// top bit set.
pub open spec fn varint_groups(b: Seq<u8>, p: int, room: nat, what: &'static str) -> Taken<nat>
    decreases room,
{
    if room == 0 {
        Err(LaurusError::Varint { what })
    } else if !(0 <= p < b.len()) {
        Err(LaurusError::Truncated { what })
    } else if b[p] < 128 {
        Ok((b[p] as nat, p + 1))
    } else {
        match varint_groups(b, p + 1, (room - 1) as nat, what) {
            Err(e) => Err(e),
            Ok((v, q)) => Ok(((b[p] - 128 + 128 * v) as nat, q)),
        }
    }
}

/// A variable-length integer of at most ten bytes that fits in 64 bits.
pub open spec fn take_varint(b: Seq<u8>, p: int, what: &'static str) -> Taken<u64> {
    match varint_groups(b, p, 10, what) {
        Err(e) => Err(e),
        Ok((v, q)) => if v <= u64::MAX {
            Ok((v as u64, q))
        } else {
            Err(LaurusError::Varint { what })
        },
    }
}

/// A declared number of items, each of at least `min_size` bytes, against the
/// bytes that are left for them.
pub open spec fn check_count(declared: u64, min_size: int, available: int, what: &'static str)
    -> Result<u64, LaurusError>
{
    if declared * min_size <= available {
        Ok(declared)
    } else {
        Err(LaurusError::Overrun { what, declared, available: available as u64 })
    }
}

/// A declared count, as [`check_count`] accepts it, in front of its items.
pub open spec fn take_count(b: Seq<u8>, p: int, min_size: int, what: &'static str) -> Taken<u64> {
    match take_varint(b, p, what) {
        Err(e) => Err(e),
        Ok((n, q)) => match check_count(n, min_size, b.len() - q, what) {
            Err(e) => Err(e),
            Ok(n) => Ok((n, q)),
        },
    }
}

/// Bytes behind their count.
pub open spec fn take_bytes(b: Seq<u8>, p: int, what: &'static str) -> Taken<Seq<u8>> {
    match take_count(b, p, 1, what) {
        Err(e) => Err(e),
        Ok((n, q)) => take_raw(b, q, n as int, what),
    }
}

/// UTF-8 text behind its length in bytes.
pub open spec fn take_str(b: Seq<u8>, p: int, what: &'static str) -> Taken<Seq<char>> {
    match take_bytes(b, p, what) {
        Err(e) => Err(e),
        Ok((s, q)) => if valid_utf8(s) {
            Ok((decode_utf8(s), q))
        } else {
            Err(LaurusError::InvalidUtf8 { what, utf8: utf8_fault(s) })
        },
    }
}

/// `n` items, one behind the other.
pub open spec fn take_many<T>(
    f: spec_fn(Seq<u8>, int) -> Taken<T>,
    b: Seq<u8>,
    p: int,
    n: nat,
) -> Taken<Seq<T>>
    decreases n,
{
    if n == 0 {
        Ok((Seq::empty(), p))
    } else {
        match take_many(f, b, p, (n - 1) as nat) {
            Err(e) => Err(e),
            Ok((s, q)) => match f(b, q) {
                Err(e) => Err(e),
                Ok((v, r)) => Ok((s.push(v), r)),
            },
        }
    }
}

// ---------------------------------------------------------------------------
// What is written
// ---------------------------------------------------------------------------

/// The groups of seven bits of `v`, least significant first, each but the last
/// with its top bit set.
pub open spec fn put_varint(v: nat) -> Seq<u8>
    decreases v,
{
    if v < 128 {
        seq![v as u8]
    } else {
        seq![(v % 128 + 128) as u8] + put_varint(v / 128)
    }
}

/// Bytes behind their count.
pub open spec fn put_bytes(s: Seq<u8>) -> Seq<u8> {
    put_varint(s.len()) + s
}

/// UTF-8 text behind its length in bytes.
pub open spec fn put_str(s: Seq<char>) -> Seq<u8> {
    put_bytes(encode_utf8(s))
}

/// The bytes of each item, one behind the other.
pub open spec fn put_many<T>(f: spec_fn(T) -> Seq<u8>, s: Seq<T>) -> Seq<u8>
    decreases s.len(),
{
    if s.len() == 0 {
        Seq::empty()
    } else {
        put_many(f, s.drop_last()) + f(s.last())
    }
}

// ---------------------------------------------------------------------------
// Reading
// ---------------------------------------------------------------------------

/// Whether `r` is the outcome `t` of taking a value at the old cursor, with the
/// cursor left behind the value.
pub open spec fn read_as<T>(r: Result<T, LaurusError>, after: usize, t: Taken<T>) -> bool {
    match t {
        Err(e) => r == Err::<T, LaurusError>(e),
        Ok((v, q)) => r == Ok::<T, LaurusError>(v) && after == q,
    }
}

/// Whether `r` fails exactly where `t` does, and has the view `v` of `t` where
/// it succeeds.
pub open spec fn read_view<T: View>(r: Result<T, LaurusError>, after: usize, t: Taken<T::V>) -> bool {
    match t {
        Err(e) => r == Err::<T, LaurusError>(e),
        Ok((v, q)) => r is Ok && r->Ok_0@ == v && after == q,
    }
}

/// Reads one byte.
pub fn read_u8(bytes: &[u8], cursor: &mut usize, what: &'static str) -> (r: Result<u8, LaurusError>)
    ensures
        read_as(r, *final(cursor), take_u8(bytes@, *old(cursor) as int, what)),
        *old(cursor) <= bytes@.len() ==> *final(cursor) <= bytes@.len(),
        r is Err ==> *final(cursor) == *old(cursor),
{
    if *cursor < bytes.len() {
        let b: u8 = bytes[*cursor];
        *cursor = *cursor + 1;
        Ok(b)
    } else {
        Err(LaurusError::Truncated { what })
    }
}

/// Reads `n` bytes without copying them.
pub fn read_raw<'a>(bytes: &'a [u8], cursor: &mut usize, n: usize, what: &'static str)
    -> (r: Result<&'a [u8], LaurusError>)
    ensures
        match take_raw(bytes@, *old(cursor) as int, n as int, what) {
            Err(e) => r == Err::<&'a [u8], LaurusError>(e),
            Ok((s, q)) => r is Ok && r->Ok_0@ == s && *final(cursor) == q,
        },
        *old(cursor) <= bytes@.len() ==> *final(cursor) <= bytes@.len(),
        r is Err ==> *final(cursor) == *old(cursor),
{
    if *cursor <= bytes.len() && n <= bytes.len() - *cursor {
        let start: usize = *cursor;
        *cursor = start + n;
        Ok(slice_subrange(bytes, start, start + n))
    } else {
        Err(LaurusError::Truncated { what })
    }
}

/// Reads a 16-bit integer, least significant byte first.
pub fn read_u16_le(bytes: &[u8], cursor: &mut usize, what: &'static str)
    -> (r: Result<u16, LaurusError>)
    ensures
        read_as(r, *final(cursor), take_u16(bytes@, *old(cursor) as int, what)),
        *old(cursor) <= bytes@.len() ==> *final(cursor) <= bytes@.len(),
        r is Err ==> *final(cursor) == *old(cursor),
{
    match read_raw(bytes, cursor, 2, what) {
        Ok(s) => Ok(u16_from_le_bytes(s)),
        Err(e) => Err(e),
    }
}

/// Reads a 32-bit integer, least significant byte first.
pub fn read_u32_le(bytes: &[u8], cursor: &mut usize, what: &'static str)
    -> (r: Result<u32, LaurusError>)
    ensures
        read_as(r, *final(cursor), take_u32(bytes@, *old(cursor) as int, what)),
        *old(cursor) <= bytes@.len() ==> *final(cursor) <= bytes@.len(),
        r is Err ==> *final(cursor) == *old(cursor),
{
    match read_raw(bytes, cursor, 4, what) {
        Ok(s) => Ok(u32_from_le_bytes(s)),
        Err(e) => Err(e),
    }
}

/// Reads a 64-bit integer, least significant byte first.
pub fn read_u64_le(bytes: &[u8], cursor: &mut usize, what: &'static str)
    -> (r: Result<u64, LaurusError>)
    ensures
        read_as(r, *final(cursor), take_u64(bytes@, *old(cursor) as int, what)),
        *old(cursor) <= bytes@.len() ==> *final(cursor) <= bytes@.len(),
        r is Err ==> *final(cursor) == *old(cursor),
{
    match read_raw(bytes, cursor, 8, what) {
        Ok(s) => Ok(u64_from_le_bytes(s)),
        Err(e) => Err(e),
    }
}

/// `128` to the power of `k`.
spec fn pow128(k: nat) -> nat
    decreases k,
{
    if k == 0 {
        1
    } else {
        128 * pow128((k - 1) as nat)
    }
}

proof fn lemma_pow128(k: nat)
    requires
        k <= 10,
    ensures
        1 <= pow128(k) <= 0x40_0000_0000_0000_0000,
{
    reveal_with_fuel(pow128, 11);
}

/// Reads a variable-length integer.
pub fn read_varint(bytes: &[u8], cursor: &mut usize, what: &'static str)
    -> (r: Result<u64, LaurusError>)
    ensures
        read_as(r, *final(cursor), take_varint(bytes@, *old(cursor) as int, what)),
        *old(cursor) <= bytes@.len() ==> *final(cursor) <= bytes@.len(),
{
    let start: usize = *cursor;
    let end: usize = bytes.len();
    if start >= end {
        return Err(LaurusError::Truncated { what });
    }
    let mut acc: u128 = 0;
    let mut scale: u128 = 1;
    let mut i: usize = 0;
    while i < 10
        invariant
            i <= 10,
            start == *old(cursor),
            end == bytes@.len(),
            start + i <= end,
            scale == pow128(i as nat),
            acc < scale,
            match varint_groups(bytes@, start as int, 10, what) {
                Err(e) => varint_groups(bytes@, start + i, (10 - i) as nat, what)
                    == Err::<(nat, int), LaurusError>(e),
                Ok((v, q)) => varint_groups(bytes@, start + i, (10 - i) as nat, what) is Ok && ({
                    let (w, q2) = varint_groups(bytes@, start + i, (10 - i) as nat, what)->Ok_0;
                    q2 == q && v == acc + scale * w
                }),
            },
        decreases 10 - i,
    {
        if start + i >= end {
            *cursor = end;
            return Err(LaurusError::Truncated { what });
        }
        let b: u8 = bytes[start + i];
        proof {
            lemma_pow128(i as nat);
            lemma_pow128((i + 1) as nat);
        }
        if b < 128 {
            assert(scale * b <= scale * 127) by (nonlinear_arith)
                requires
                    0 <= b <= 127,
                    scale >= 0,
            ;
            let v: u128 = acc + scale * (b as u128);
            *cursor = start + i + 1;
            if v <= u64::MAX as u128 {
                return Ok(v as u64);
            } else {
                return Err(LaurusError::Varint { what });
            }
        }
        let group: u128 = (b - 128) as u128;
        assert(scale * group <= scale * 127) by (nonlinear_arith)
            requires
                0 <= group <= 127,
                scale >= 0,
        ;
        proof {
            if varint_groups(bytes@, start + i + 1, (9 - i) as nat, what) is Ok {
                let w = varint_groups(bytes@, start + i + 1, (9 - i) as nat, what)->Ok_0.0;
                assert(scale * (group + 128 * w) == scale * group + (scale * 128) * w)
                    by (nonlinear_arith);
            }
        }
        acc = acc + scale * group;
        scale = scale * 128;
        i = i + 1;
    }
    *cursor = start;
    Err(LaurusError::Varint { what })
}

/// Accepts a declared count where that many items can fit in what is left.
pub fn checked_capacity(declared: u64, min_size: u64, available: u64, what: &'static str)
    -> (r: Result<u64, LaurusError>)
    ensures
        r == check_count(declared, min_size as int, available as int, what),
{
    match declared.checked_mul(min_size) {
        Some(total) => if total <= available {
            Ok(declared)
        } else {
            Err(LaurusError::Overrun { what, declared, available })
        },
        None => Err(LaurusError::Overrun { what, declared, available }),
    }
}

/// Reads the count in front of items of at least `min_size` bytes each.
pub fn read_count(bytes: &[u8], cursor: &mut usize, min_size: u64, what: &'static str)
    -> (r: Result<usize, LaurusError>)
    requires
        min_size > 0,
    ensures
        match take_count(bytes@, *old(cursor) as int, min_size as int, what) {
            Err(e) => r == Err::<usize, LaurusError>(e),
            Ok((n, q)) => r is Ok && r->Ok_0 == n && *final(cursor) == q
                && n * min_size <= bytes@.len() - q,
        },
        *old(cursor) <= bytes@.len() ==> *final(cursor) <= bytes@.len(),
{
    let n: u64 = match read_varint(bytes, cursor, what) {
        Ok(n) => n,
        Err(e) => return Err(e),
    };
    let left: u64 = (bytes.len() - *cursor) as u64;
    match checked_capacity(n, min_size, left, what) {
        Ok(n) => {
            assert(n <= n * min_size) by (nonlinear_arith)
                requires
                    min_size >= 1,
                    n >= 0,
            ;
            Ok(n as usize)
        },
        Err(e) => Err(e),
    }
}

/// Reads bytes behind their count.
pub fn read_len_prefixed_bytes(bytes: &[u8], cursor: &mut usize, what: &'static str)
    -> (r: Result<Vec<u8>, LaurusError>)
    ensures
        read_view(r, *final(cursor), take_bytes(bytes@, *old(cursor) as int, what)),
        *old(cursor) <= bytes@.len() ==> *final(cursor) <= bytes@.len(),
{
    let n: usize = match read_count(bytes, cursor, 1, what) {
        Ok(n) => n,
        Err(e) => return Err(e),
    };
    match read_raw(bytes, cursor, n, what) {
        Ok(s) => Ok(slice_to_vec(s)),
        Err(e) => Err(e),
    }
}

/// Where and why bytes are not valid UTF-8.
pub uninterp spec fn utf8_fault(bytes: Seq<u8>) -> Utf8Fault;

/// `String::from_utf8`: succeeds exactly on valid UTF-8, with the characters
/// that the bytes spell. Of other bytes it says, as a function of the bytes alone, how
/// many in front are valid, which are the most that are, and how many behind them are
/// not.
#[verifier::external_body]
pub(crate) fn string_from_utf8(bytes: Vec<u8>) -> (r: Result<String, Utf8Fault>)
    ensures
        r is Ok <==> valid_utf8(bytes@),
        r is Ok ==> r->Ok_0@ == decode_utf8(bytes@),
        r is Err ==> r->Err_0 == utf8_fault(bytes@),
        r is Err ==> r->Err_0.valid_up_to < bytes@.len() && valid_utf8(
            bytes@.take(r->Err_0.valid_up_to as int),
        ),
        r is Err ==> forall|n: int|
            r->Err_0.valid_up_to < n <= bytes@.len() ==> !valid_utf8(#[trigger] bytes@.take(n)),
{
    match String::from_utf8(bytes) {
        Ok(s) => Ok(s),
        Err(e) => {
            let e = e.utf8_error();
            Err(Utf8Fault { valid_up_to: e.valid_up_to(), error_len: e.error_len() })
        },
    }
}

/// Reads UTF-8 text behind its length.
pub fn read_len_prefixed_str(bytes: &[u8], cursor: &mut usize, what: &'static str)
    -> (r: Result<String, LaurusError>)
    ensures
        read_view(r, *final(cursor), take_str(bytes@, *old(cursor) as int, what)),
        *old(cursor) <= bytes@.len() ==> *final(cursor) <= bytes@.len(),
{
    match read_len_prefixed_bytes(bytes, cursor, what) {
        Ok(s) => match string_from_utf8(s) {
            Ok(text) => Ok(text),
            Err(utf8) => Err(LaurusError::InvalidUtf8 { what, utf8 }),
        },
        Err(e) => Err(e),
    }
}

// ---------------------------------------------------------------------------
// Writing
// ---------------------------------------------------------------------------

/// Appends `s`.
pub fn write_raw(buf: &mut Vec<u8>, s: &[u8])
    ensures
        final(buf)@ == old(buf)@ + s@,
{
    buf.extend_from_slice(s);
    assert(buf@ =~= old(buf)@ + s@);
}

/// Appends a 16-bit integer, least significant byte first.
pub fn write_u16_le(buf: &mut Vec<u8>, v: u16)
    ensures
        final(buf)@ == old(buf)@ + spec_u16_to_le_bytes(v),
{
    let s: Vec<u8> = u16_to_le_bytes(v);
    write_raw(buf, s.as_slice());
}

/// Appends a 32-bit integer, least significant byte first.
pub fn write_u32_le(buf: &mut Vec<u8>, v: u32)
    ensures
        final(buf)@ == old(buf)@ + spec_u32_to_le_bytes(v),
{
    let s: Vec<u8> = u32_to_le_bytes(v);
    write_raw(buf, s.as_slice());
}

/// Appends a 64-bit integer, least significant byte first.
pub fn write_u64_le(buf: &mut Vec<u8>, v: u64)
    ensures
        final(buf)@ == old(buf)@ + spec_u64_to_le_bytes(v),
{
    let s: Vec<u8> = u64_to_le_bytes(v);
    write_raw(buf, s.as_slice());
}

/// Appends a variable-length integer.
pub fn write_varint(buf: &mut Vec<u8>, v: u64)
    ensures
        final(buf)@ == old(buf)@ + put_varint(v as nat),
{
    let mut v: u64 = v;
    let ghost v0 = v;
    let ghost b0 = buf@;
    while v >= 128
        invariant
            buf@ + put_varint(v as nat) == b0 + put_varint(v0 as nat),
        decreases v,
    {
        let ghost before = buf@;
        buf.push((v % 128 + 128) as u8);
        assert(buf@ + put_varint((v / 128) as nat) =~= before + put_varint(v as nat));
        v = v / 128;
    }
    let ghost before = buf@;
    buf.push(v as u8);
    assert(buf@ =~= before + put_varint(v as nat));
}

/// Appends bytes behind their count.
pub fn write_bytes(buf: &mut Vec<u8>, s: &[u8])
    ensures
        final(buf)@ == old(buf)@ + put_bytes(s@),
        s@.len() <= u64::MAX,
{
    write_varint(buf, s.len() as u64);
    write_raw(buf, s);
    assert(buf@ =~= old(buf)@ + put_bytes(s@));
}

/// Appends UTF-8 text behind its length.
pub fn write_str(buf: &mut Vec<u8>, s: &str)
    ensures
        final(buf)@ == old(buf)@ + put_str(s@),
        encode_utf8(s@).len() <= u64::MAX,
{
    write_bytes(buf, s.as_bytes());
}

// ---------------------------------------------------------------------------
// Reading gives back what was written
// ---------------------------------------------------------------------------

/// Whether `piece` stands in `b` at `p`.
pub open spec fn stands_at(b: Seq<u8>, p: int, piece: Seq<u8>) -> bool {
    &&& 0 <= p
    &&& p + piece.len() <= b.len()
    &&& b.subrange(p, p + piece.len()) == piece
}

/// Where a concatenation stands, its two parts stand one behind the other.
pub proof fn lemma_stands_split(b: Seq<u8>, p: int, s1: Seq<u8>, s2: Seq<u8>)
    requires
        stands_at(b, p, s1 + s2),
    ensures
        stands_at(b, p, s1),
        stands_at(b, p + s1.len(), s2),
{
    let s = b.subrange(p, p + (s1 + s2).len());
    assert(b.subrange(p, p + s1.len()) =~= s.subrange(0, s1.len() as int));
    assert(s1 =~= (s1 + s2).subrange(0, s1.len() as int));
    assert(b.subrange(p + s1.len(), p + s1.len() + s2.len()) =~= s.subrange(
        s1.len() as int,
        s.len() as int,
    ));
    assert(s2 =~= (s1 + s2).subrange(s1.len() as int, (s1 + s2).len() as int));
}

/// The first byte of a piece that stands somewhere.
pub proof fn lemma_stands_byte(b: Seq<u8>, p: int, piece: Seq<u8>, i: int)
    requires
        stands_at(b, p, piece),
        0 <= i < piece.len(),
    ensures
        b[p + i] == piece[i],
{
    assert(b.subrange(p, p + piece.len())[i] == b[p + i]);
}

/// A 16-bit integer reads back as it was written.
pub proof fn lemma_u16_round_trip(b: Seq<u8>, p: int, v: u16, what: &'static str)
    requires
        stands_at(b, p, spec_u16_to_le_bytes(v)),
    ensures
        take_u16(b, p, what) == Ok::<(u16, int), LaurusError>((v, p + 2)),
        spec_u16_to_le_bytes(v).len() == 2,
{
    lemma_auto_spec_u16_to_from_le_bytes();
}

/// A 32-bit integer reads back as it was written.
pub proof fn lemma_u32_round_trip(b: Seq<u8>, p: int, v: u32, what: &'static str)
    requires
        stands_at(b, p, spec_u32_to_le_bytes(v)),
    ensures
        take_u32(b, p, what) == Ok::<(u32, int), LaurusError>((v, p + 4)),
        spec_u32_to_le_bytes(v).len() == 4,
{
    lemma_auto_spec_u32_to_from_le_bytes();
}

/// A 64-bit integer reads back as it was written.
pub proof fn lemma_u64_round_trip(b: Seq<u8>, p: int, v: u64, what: &'static str)
    requires
        stands_at(b, p, spec_u64_to_le_bytes(v)),
    ensures
        take_u64(b, p, what) == Ok::<(u64, int), LaurusError>((v, p + 8)),
        spec_u64_to_le_bytes(v).len() == 8,
{
    lemma_auto_spec_u64_to_from_le_bytes();
}

proof fn lemma_groups_round_trip(b: Seq<u8>, p: int, v: nat, room: nat, what: &'static str)
    requires
        stands_at(b, p, put_varint(v)),
        room > 0,
        v < pow128(room),
    ensures
        varint_groups(b, p, room, what) == Ok::<(nat, int), LaurusError>(
            (v, p + put_varint(v).len()),
        ),
        1 <= put_varint(v).len() <= room,
    decreases v,
{
    lemma_stands_byte(b, p, put_varint(v), 0);
    if v >= 128 {
        let head = seq![(v % 128 + 128) as u8];
        lemma_stands_split(b, p, head, put_varint(v / 128));
        if room == 1 {
            reveal_with_fuel(pow128, 2);
            assert(false);
        }
        assert(v / 128 < pow128((room - 1) as nat)) by (nonlinear_arith)
            requires
                v < 128 * pow128((room - 1) as nat),
        ;
        lemma_groups_round_trip(b, p + 1, v / 128, (room - 1) as nat, what);
    }
}

/// A variable-length integer reads back as it was written, in one to ten bytes.
pub proof fn lemma_varint_round_trip(b: Seq<u8>, p: int, v: u64, what: &'static str)
    requires
        stands_at(b, p, put_varint(v as nat)),
    ensures
        take_varint(b, p, what) == Ok::<(u64, int), LaurusError>(
            (v, p + put_varint(v as nat).len()),
        ),
        1 <= put_varint(v as nat).len() <= 10,
{
    reveal_with_fuel(pow128, 11);
    assert(pow128(10) == 0x40_0000_0000_0000_0000);
    lemma_groups_round_trip(b, p, v as nat, 10, what);
}

/// A count reads back where its items fit behind it.
pub proof fn lemma_count_round_trip(b: Seq<u8>, p: int, n: u64, min_size: int, what: &'static str)
    requires
        stands_at(b, p, put_varint(n as nat)),
        n * min_size <= b.len() - p - put_varint(n as nat).len(),
    ensures
        take_count(b, p, min_size, what) == Ok::<(u64, int), LaurusError>(
            (n, p + put_varint(n as nat).len()),
        ),
        1 <= put_varint(n as nat).len() <= 10,
{
    lemma_varint_round_trip(b, p, n, what);
}

/// Bytes read back as they were written.
pub proof fn lemma_bytes_round_trip(b: Seq<u8>, p: int, s: Seq<u8>, what: &'static str)
    requires
        stands_at(b, p, put_bytes(s)),
        s.len() <= u64::MAX,
    ensures
        take_bytes(b, p, what) == Ok::<(Seq<u8>, int), LaurusError>((s, p + put_bytes(s).len())),
        put_bytes(s).len() >= 1,
{
    lemma_stands_split(b, p, put_varint(s.len()), s);
    lemma_count_round_trip(b, p, s.len() as u64, 1, what);
}

/// Text reads back as it was written.
pub proof fn lemma_str_round_trip(b: Seq<u8>, p: int, s: Seq<char>, what: &'static str)
    requires
        stands_at(b, p, put_str(s)),
        encode_utf8(s).len() <= u64::MAX,
    ensures
        take_str(b, p, what) == Ok::<(Seq<char>, int), LaurusError>((s, p + put_str(s).len())),
        put_str(s).len() >= 1,
{
    lemma_bytes_round_trip(b, p, encode_utf8(s), what);
    encode_utf8_valid_utf8(s);
    encode_utf8_decode_utf8(s);
}

/// Whether taking with `f` gives back what `put` wrote of the values `ok` admits,
/// wherever it stands.
pub open spec fn gives_back<T>(
    f: spec_fn(Seq<u8>, int) -> Taken<T>,
    put: spec_fn(T) -> Seq<u8>,
    v: T,
) -> bool {
    forall|b: Seq<u8>, p: int| #[trigger]
        stands_at(b, p, put(v)) ==> f(b, p) == Ok::<(T, int), LaurusError>((v, p + put(v).len()))
}

/// A sequence of items reads back as it was written.
pub proof fn lemma_many_round_trip<T>(
    f: spec_fn(Seq<u8>, int) -> Taken<T>,
    put: spec_fn(T) -> Seq<u8>,
    s: Seq<T>,
    b: Seq<u8>,
    p: int,
)
    requires
        stands_at(b, p, put_many(put, s)),
        forall|i: int| 0 <= i < s.len() ==> gives_back(f, put, #[trigger] s[i]),
    ensures
        take_many(f, b, p, s.len()) == Ok::<(Seq<T>, int), LaurusError>(
            (s, p + put_many(put, s).len()),
        ),
    decreases s.len(),
{
    if s.len() > 0 {
        let front = s.drop_last();
        lemma_stands_split(b, p, put_many(put, front), put(s.last()));
        assert(forall|i: int| 0 <= i < front.len() ==> #[trigger] front[i] == s[i]);
        lemma_many_round_trip(f, put, front, b, p);
        assert(gives_back(f, put, s[s.len() - 1]));
        assert(front.push(s.last()) =~= s);
    } else {
        assert(s =~= Seq::empty());
    }
}

/// Items that cannot be taken stay in the way of taking more of them.
pub proof fn lemma_many_fails<T>(
    f: spec_fn(Seq<u8>, int) -> Taken<T>,
    b: Seq<u8>,
    p: int,
    n: nat,
    m: nat,
)
    requires
        n <= m,
        take_many(f, b, p, n) is Err,
    ensures
        take_many(f, b, p, m) == take_many(f, b, p, n),
    decreases m - n,
{
    if n < m {
        lemma_many_fails(f, b, p, n, (m - 1) as nat);
    }
}

/// The number of bytes of items of one size.
pub proof fn lemma_put_many_len<T>(put: spec_fn(T) -> Seq<u8>, s: Seq<T>, size: nat)
    requires
        forall|i: int| 0 <= i < s.len() ==> (#[trigger] put(s[i])).len() >= size,
    ensures
        put_many(put, s).len() >= s.len() * size,
    decreases s.len(),
{
    if s.len() > 0 {
        let front = s.drop_last();
        assert forall|i: int| 0 <= i < front.len() implies (#[trigger] put(front[i])).len()
            >= size by {
            assert(front[i] == s[i]);
        }
        lemma_put_many_len(put, front, size);
        assert(put(s[s.len() - 1]).len() >= size);
        assert(s.len() * size == front.len() * size + size) by (nonlinear_arith)
            requires
                s.len() == front.len() + 1,
        ;
    }
}

/// Writing one item more appends its bytes.
pub proof fn lemma_put_many_push<T>(put: spec_fn(T) -> Seq<u8>, s: Seq<T>, v: T)
    ensures
        put_many(put, s.push(v)) == put_many(put, s) + put(v),
{
    assert(s.push(v).drop_last() =~= s);
}

/// The bytes of the first item stand in front.
pub proof fn lemma_put_many_first<T>(put: spec_fn(T) -> Seq<u8>, s: Seq<T>)
    requires
        s.len() > 0,
    ensures
        put_many(put, s) == put(s[0]) + put_many(put, s.drop_first()),
    decreases s.len(),
{
    if s.len() == 1 {
        assert(s.drop_last() =~= Seq::empty());
        assert(s.drop_first() =~= Seq::empty());
        assert(put_many(put, s) =~= put(s[0]) + put_many(put, s.drop_first()));
    } else {
        lemma_put_many_first(put, s.drop_last());
        assert(s.drop_first().drop_last() =~= s.drop_last().drop_first());
        assert(put_many(put, s) =~= put(s[0]) + put_many(put, s.drop_first()));
    }
}

/// The bytes of two runs of items stand one behind the other.
pub proof fn lemma_put_many_append<T>(put: spec_fn(T) -> Seq<u8>, s: Seq<T>, t: Seq<T>)
    ensures
        put_many(put, s + t) == put_many(put, s) + put_many(put, t),
    decreases t.len(),
{
    if t.len() == 0 {
        assert(s + t =~= s);
        assert(put_many(put, s) + put_many(put, t) =~= put_many(put, s));
    } else {
        lemma_put_many_append(put, s, t.drop_last());
        assert((s + t).drop_last() =~= s + t.drop_last());
        assert(put_many(put, s + t) =~= put_many(put, s) + put_many(put, t));
    }
}

/// The bytes of a 64-bit integer.
pub open spec fn put_u64() -> spec_fn(u64) -> Seq<u8> {
    |v: u64| spec_u64_to_le_bytes(v)
}

/// Takes a 64-bit integer wherever it is asked to.
pub open spec fn each_u64(what: &'static str) -> spec_fn(Seq<u8>, int) -> Taken<u64> {
    |b: Seq<u8>, p: int| take_u64(b, p, what)
}

/// A 64-bit integer reads back wherever it stands.
pub proof fn lemma_u64_gives_back(what: &'static str, v: u64)
    ensures
        gives_back(each_u64(what), put_u64(), v),
        put_u64()(v).len() == 8,
{
    lemma_auto_spec_u64_to_from_le_bytes();
    assert forall|b: Seq<u8>, p: int| #[trigger] stands_at(b, p, put_u64()(v)) implies each_u64(
        what,
    )(b, p) == Ok::<(u64, int), LaurusError>((v, p + put_u64()(v).len())) by {
        lemma_u64_round_trip(b, p, v, what);
    }
}

/// 64-bit integers read back as they were written, in eight bytes each.
pub proof fn lemma_u64s_round_trip(b: Seq<u8>, p: int, s: Seq<u64>, what: &'static str)
    requires
        stands_at(b, p, put_many(put_u64(), s)),
    ensures
        take_many(each_u64(what), b, p, s.len()) == Ok::<(Seq<u64>, int), LaurusError>(
            (s, p + 8 * s.len()),
        ),
        put_many(put_u64(), s).len() == 8 * s.len(),
{
    assert forall|i: int| 0 <= i < s.len() implies gives_back(
        each_u64(what),
        put_u64(),
        #[trigger] s[i],
    ) by {
        lemma_u64_gives_back(what, s[i]);
    }
    lemma_many_round_trip(each_u64(what), put_u64(), s, b, p);
    lemma_u64s_len(s);
}

/// 64-bit integers take eight bytes each.
pub proof fn lemma_u64s_len(s: Seq<u64>)
    ensures
        put_many(put_u64(), s).len() == 8 * s.len(),
    decreases s.len(),
{
    lemma_auto_spec_u64_to_from_le_bytes();
    if s.len() > 0 {
        lemma_u64s_len(s.drop_last());
    }
}

/// Appends 64-bit integers.
pub fn write_u64s(buf: &mut Vec<u8>, v: &Vec<u64>)
    ensures
        final(buf)@ == old(buf)@ + put_many(put_u64(), v@),
        final(buf)@.len() == old(buf)@.len() + 8 * v@.len(),
{
    let n: usize = v.len();
    let ghost start = buf@;
    let mut i: usize = 0;
    proof {
        assert(v@.take(0) =~= Seq::empty());
        assert(buf@ =~= start + put_many(put_u64(), v@.take(0)));
    }
    while i < n
        invariant
            n == v@.len(),
            i <= n,
            buf@ == start + put_many(put_u64(), v@.take(i as int)),
        decreases n - i,
    {
        write_u64_le(buf, v[i]);
        proof {
            assert(v@.take(i + 1) =~= v@.take(i as int).push(v@[i as int]));
            lemma_put_many_push(put_u64(), v@.take(i as int), v@[i as int]);
            assert(buf@ =~= start + put_many(put_u64(), v@.take(i + 1)));
        }
        i = i + 1;
    }
    proof {
        assert(v@.take(n as int) =~= v@);
        lemma_u64s_len(v@);
    }
}

/// Reads `n` 64-bit integers.
pub fn read_u64s(bytes: &[u8], cursor: &mut usize, n: u32, what: &'static str)
    -> (r: Result<Vec<u64>, LaurusError>)
    requires
        *old(cursor) <= bytes@.len(),
    ensures
        read_view(
            r,
            *final(cursor),
            take_many(each_u64(what), bytes@, *old(cursor) as int, n as nat),
        ),
        *final(cursor) <= bytes@.len(),
        r is Ok ==> r->Ok_0@.len() == n,
{
    let ghost start = *cursor as int;
    let ghost f = each_u64(what);
    let mut v: Vec<u64> = Vec::new();
    let mut i: u32 = 0;
    assert(v@ =~= Seq::empty());
    while i < n
        invariant
            i <= n,
            *cursor <= bytes@.len(),
            f == each_u64(what),
            start == *old(cursor),
            v@.len() == i,
            take_many(f, bytes@, start, i as nat) == Ok::<_, LaurusError>((v@, *cursor as int)),
        decreases n - i,
    {
        match read_u64_le(bytes, cursor, what) {
            Ok(x) => {
                v.push(x);
            },
            Err(e) => {
                proof {
                    lemma_many_fails(f, bytes@, start, (i + 1) as nat, n as nat);
                }
                return Err(e);
            },
        }
        i = i + 1;
    }
    Ok(v)
}

} // verus!
