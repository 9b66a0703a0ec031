//! Calls into outside crates, each behind a contract that is not proved here.

use vstd::prelude::*;

use crate::data;
use crate::error::{Base64Fault, DateTimeFault, Lz4Fault};

verus! {

/// The CRC-32 checksum of `bytes`.
pub uninterp spec fn crc32(bytes: Seq<u8>) -> u32;

/// `crc32fast::hash`: the CRC-32 checksum, a function of the bytes alone.
#[verifier::external_body]
pub(crate) fn crc32_hash(bytes: &[u8]) -> (r: u32)
    ensures
        r == crc32(bytes@),
{
    crc32fast::hash(bytes)
}

/// The room that LZ4 asks for to compress `len` bytes.
pub open spec fn lz4_room(len: int) -> int {
    20 + len * 110 / 100
}

/// Whether the room for `len` bytes can be computed and addressed.
pub open spec fn lz4_room_fits(len: int) -> bool {
    len * 110 <= u64::MAX && lz4_room(len) <= usize::MAX
}

/// The LZ4 block of `bytes`. The compressor finds repetitions through tables that go by
/// the word size and the byte order of the target, so the block is a function of the
/// bytes within one build; builds for other targets may give another block of them.
pub uninterp spec fn lz4_block(bytes: Seq<u8>) -> Seq<u8>;

/// What the LZ4 block `block` unpacks to in a buffer of `room` bytes, or why it does not.
pub uninterp spec fn lz4_plain(block: Seq<u8>, room: nat) -> Result<Seq<u8>, Lz4Fault>;

/// `lz4_flex::block::get_maximum_output_size`: the room to set aside before
/// compressing.
#[verifier::external_body]
pub(crate) fn lz4_maximum_output_size(len: usize) -> (r: usize)
    requires
        lz4_room_fits(len as int),
    ensures
        r == lz4_room(len as int),
{
    lz4_flex::block::get_maximum_output_size(len)
}

/// `lz4_flex::block::compress_into`: writes the block of `input` to the front of
/// `output` and returns its length, and fails only where `output` is smaller
/// than the room that is asked for. The block unpacks to `input` in a buffer of
/// the length of `input`, and no byte of it stands for more than 255 bytes.
#[verifier::external_body]
pub(crate) fn lz4_compress_into(input: &[u8], output: &mut Vec<u8>) -> (r: Option<usize>)
    requires
        lz4_room_fits(input@.len() as int),
    ensures
        final(output)@.len() == old(output)@.len(),
        r is Some <==> old(output)@.len() >= lz4_room(input@.len() as int),
        r is Some ==> r->Some_0 <= final(output)@.len(),
        r is Some ==> final(output)@.take(r->Some_0 as int) == lz4_block(input@),
        r is Some ==> lz4_plain(final(output)@.take(r->Some_0 as int), input@.len()) is Ok,
        r is Some ==> lz4_plain(final(output)@.take(r->Some_0 as int), input@.len())->Ok_0
            == input@,
        r is Some ==> input@.len() <= 255 * r->Some_0,
{
    lz4_flex::block::compress_into(input, output).ok()
}

/// `lz4_flex::block::decompress_into`: unpacks `input` to the front of `output`
/// and returns how many bytes that took, or why it does not unpack.
#[verifier::external_body]
pub(crate) fn lz4_decompress_into(input: &[u8], output: &mut Vec<u8>) -> (r: Result<
    usize,
    Lz4Fault,
>)
    ensures
        final(output)@.len() == old(output)@.len(),
        match lz4_plain(input@, old(output)@.len()) {
            Ok(plain) => r is Ok && r->Ok_0 == plain.len() && r->Ok_0 <= final(output)@.len()
                && final(output)@.take(r->Ok_0 as int) == plain,
            Err(lz4) => r == Err::<usize, Lz4Fault>(lz4),
        },
{
    match lz4_flex::block::decompress_into(input, output) {
        Ok(n) => Ok(n),
        Err(lz4_flex::block::DecompressError::OutputTooSmall { expected, actual }) => Err(
            Lz4Fault::OutputTooSmall { expected: expected as u64, actual: actual as u64 },
        ),
        Err(lz4_flex::block::DecompressError::LiteralOutOfBounds) => Err(
            Lz4Fault::LiteralOutOfBounds,
        ),
        Err(lz4_flex::block::DecompressError::ExpectedAnotherByte) => Err(
            Lz4Fault::ExpectedAnotherByte,
        ),
        Err(lz4_flex::block::DecompressError::OffsetZero) => Err(Lz4Fault::OffsetZero),
        Err(_) => Err(Lz4Fault::OffsetOutOfBounds),
    }
}

/// The RFC 3339 text of an instant.
pub uninterp spec fn rfc3339_text(t: (i64, u32)) -> Seq<char>;

/// The instant that RFC 3339 text names, or why it names none.
pub uninterp spec fn rfc3339_instant(text: Seq<char>) -> Result<(i64, u32), DateTimeFault>;

/// Whether an instant lies in the years 0 to 9999, which RFC 3339 can name.
pub open spec fn four_digit_year(t: (i64, u32)) -> bool {
    -62_167_219_200 <= t.0 <= 253_402_300_799
}

/// `chrono::DateTime::to_rfc3339` in UTC. The text of an instant in the years 0
/// to 9999 names that instant again.
#[verifier::external_body]
pub(crate) fn to_rfc3339(secs: i64, nanos: u32) -> (r: String)
    requires
        data::valid_instant((secs, nanos)),
    ensures
        r@ == rfc3339_text((secs, nanos)),
        four_digit_year((secs, nanos)) ==> rfc3339_instant(r@) is Ok && rfc3339_instant(r@)->Ok_0
            == (secs, nanos),
{
    chrono::DateTime::from_timestamp(secs, nanos).unwrap().to_rfc3339()
}

/// `chrono::DateTime::parse_from_rfc3339`, taken to UTC, or the kind of its error.
#[verifier::external_body]
pub(crate) fn parse_rfc3339(text: &str) -> (r: Result<(i64, u32), DateTimeFault>)
    ensures
        r == rfc3339_instant(text@),
        r is Ok ==> data::valid_instant(r->Ok_0),
{
    match chrono::DateTime::parse_from_rfc3339(text) {
        Ok(parsed) => Ok((parsed.timestamp(), parsed.timestamp_subsec_nanos())),
        Err(e) => match e.kind() {
            chrono::format::ParseErrorKind::OutOfRange => Err(DateTimeFault::OutOfRange),
            chrono::format::ParseErrorKind::Impossible => Err(DateTimeFault::Impossible),
            chrono::format::ParseErrorKind::NotEnough => Err(DateTimeFault::NotEnough),
            chrono::format::ParseErrorKind::Invalid => Err(DateTimeFault::Invalid),
            chrono::format::ParseErrorKind::TooShort => Err(DateTimeFault::TooShort),
            chrono::format::ParseErrorKind::TooLong => Err(DateTimeFault::TooLong),
            _ => Err(DateTimeFault::BadFormat),
        },
    }
}

/// The instant of a date and time without an offset, taken as UTC, where text
/// names one.
pub uninterp spec fn naive_instant(text: Seq<char>) -> Option<(i64, u32)>;

/// `chrono::NaiveDateTime::from_str`, taken as UTC.
#[verifier::external_body]
pub(crate) fn parse_naive_datetime(text: &str) -> (r: Option<(i64, u32)>)
    ensures
        r == naive_instant(text@),
        r is Some ==> data::valid_instant(r->Some_0),
{
    let parsed = text.parse::<chrono::NaiveDateTime>().ok()?.and_utc();
    Some((parsed.timestamp(), parsed.timestamp_subsec_nanos()))
}

/// The day that text names, counted from the day before the year 1, where it
/// names one.
pub uninterp spec fn naive_day(text: Seq<char>) -> Option<i32>;

/// `chrono::NaiveDate::from_str` and `chrono::Datelike::num_days_from_ce`.
#[verifier::external_body]
pub(crate) fn parse_naive_date(text: &str) -> (r: Option<i32>)
    ensures
        r == naive_day(text@),
{
    let parsed = text.parse::<chrono::NaiveDate>().ok()?;
    Some(chrono::Datelike::num_days_from_ce(&parsed))
}

/// What Base64 text stands for, or why it is not valid.
pub uninterp spec fn base64_bytes(text: Seq<char>) -> Result<Seq<u8>, Base64Fault>;

/// `base64::Engine::decode` of the standard alphabet with padding.
#[verifier::external_body]
pub(crate) fn base64_decode(text: &str) -> (r: Result<Vec<u8>, Base64Fault>)
    ensures
        match base64_bytes(text@) {
            Ok(b) => r is Ok && r->Ok_0@ == b,
            Err(e) => r == Err::<Vec<u8>, Base64Fault>(e),
        },
{
    match base64::Engine::decode(&base64::engine::general_purpose::STANDARD, text) {
        Ok(b) => Ok(b),
        Err(base64::DecodeError::InvalidByte(offset, byte)) => Err(
            Base64Fault::InvalidByte { offset: offset as u64, byte },
        ),
        Err(base64::DecodeError::InvalidLength(len)) => Err(
            Base64Fault::InvalidLength { len: len as u64 },
        ),
        Err(base64::DecodeError::InvalidLastSymbol(offset, byte)) => Err(
            Base64Fault::InvalidLastSymbol { last_offset: offset as u64, last: byte },
        ),
        Err(base64::DecodeError::InvalidPadding) => Err(Base64Fault::InvalidPadding),
    }
}

/// `SystemTime::elapsed` of the Unix epoch: the seconds since then. Nothing is said of
/// what they are.
#[verifier::external_body]
pub(crate) fn now_secs() -> (r: u64)
{
    std::time::UNIX_EPOCH.elapsed().map(|d| d.as_secs()).unwrap_or(0)
}

} // verus!
