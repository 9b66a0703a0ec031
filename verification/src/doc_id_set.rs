//! The exact set of document ids that a segment holds.
//!
//! Deletions address documents by id, and the range of ids of a segment can
//! contain ids that the segment does not hold. The set answers which are its own.
//!
//! ```text
//! magic "SIDS" (4) | version (2) | varint(len) + the bytes of the set
//! | CRC-32 of the bytes of the set (4)
//! ```

use roaring::RoaringTreemap;

use vstd::bytes::*;
use vstd::prelude::*;

use crate::codec;
use crate::error::LaurusError;
use crate::outside;
use crate::sort;
use crate::treemap;

verus! {

/// "SIDS", least significant byte first.
pub const MAGIC: u32 = 0x5344_4953;

/// The version of the format.
pub const VERSION: u16 = 1;

/// The bytes of a part whose set is spelled by `payload`.
pub open spec fn put_part(payload: Seq<u8>) -> Seq<u8> {
    spec_u32_to_le_bytes(MAGIC) + (spec_u16_to_le_bytes(VERSION) + (codec::put_bytes(payload)
        + spec_u32_to_le_bytes(outside::crc32(payload))))
}

/// Why a part does not hold a set of ids.
pub enum Fault {
    /// Its bytes do not have the form of a part.
    Form(LaurusError),
    /// It starts with another mark.
    Magic(u32),
    /// It has another version.
    Version(u16),
    /// Its checksum is not the one of the bytes of the set.
    Checksum,
    /// The bytes of the set do not spell one, for the reason in words.
    Spelling(Seq<char>),
}

/// Whether `e` tells of a fault in the part of a segment.
pub open spec fn tells(e: LaurusError, segment_id: Seq<char>, fault: Fault) -> bool {
    match (fault, e) {
        (Fault::Form(f), _) => e == f,
        (Fault::Magic(m), LaurusError::IdSetMagic { segment_id: s, id_set_magic }) => s@
            == segment_id && id_set_magic == m,
        (Fault::Version(v), LaurusError::IdSetVersion { segment_id: s, id_set_version }) => s@
            == segment_id && id_set_version == v,
        (Fault::Checksum, LaurusError::IdSetChecksum { segment_id: s }) => s@ == segment_id,
        (Fault::Spelling(w), LaurusError::IdSetDecoding { segment_id: s, words }) => s@
            == segment_id && words@ == w,
        _ => false,
    }
}

/// The bytes that spell the set of a part: its marks and its checksum must be
/// right.
pub open spec fn take_payload(b: Seq<u8>) -> Result<Seq<u8>, Fault> {
    match codec::take_u32(b, 0, "segment doc-id set") {
        Err(e) => Err(Fault::Form(e)),
        Ok((magic, p1)) => if magic != MAGIC {
            Err(Fault::Magic(magic))
        } else {
            match codec::take_u16(b, p1, "segment doc-id set") {
                Err(e) => Err(Fault::Form(e)),
                Ok((version, p2)) => if version != VERSION {
                    Err(Fault::Version(version))
                } else {
                    match codec::take_bytes(b, p2, "segment doc-id set") {
                        Err(e) => Err(Fault::Form(e)),
                        Ok((payload, p3)) => match codec::take_u32(b, p3, "segment doc-id set") {
                            Err(e) => Err(Fault::Form(e)),
                            Ok((crc, _)) => if crc != outside::crc32(payload) {
                                Err(Fault::Checksum)
                            } else {
                                Ok(payload)
                            },
                        },
                    }
                },
            }
        },
    }
}

/// The ids of a part.
pub open spec fn take_ids(b: Seq<u8>) -> Result<Set<u64>, Fault> {
    match take_payload(b) {
        Err(e) => Err(e),
        Ok(payload) => match treemap::treemap_decoded(payload) {
            Ok(ids) => Ok(ids),
            Err(words) => Err(Fault::Spelling(words)),
        },
    }
}

/// Whether `r` tells of the fault exactly where `t` has one, and holds the ids of `t`
/// where it has none.
pub open spec fn reads_ids(
    r: Result<RoaringTreemap, LaurusError>,
    segment_id: Seq<char>,
    t: Result<Set<u64>, Fault>,
) -> bool {
    match t {
        Err(fault) => r is Err && tells(r->Err_0, segment_id, fault),
        Ok(ids) => r is Ok && treemap::treemap_ids(r->Ok_0) == ids,
    }
}

/// A payload reads back from its part.
pub proof fn lemma_part_round_trip(payload: Seq<u8>)
    requires
        payload.len() <= u64::MAX,
    ensures
        take_payload(put_part(payload)) == Ok::<Seq<u8>, Fault>(payload),
{
    lemma_auto_spec_u32_to_from_le_bytes();
    lemma_auto_spec_u16_to_from_le_bytes();
    let b = put_part(payload);
    let magic = spec_u32_to_le_bytes(MAGIC);
    let version = spec_u16_to_le_bytes(VERSION);
    let body = codec::put_bytes(payload);
    let crc = spec_u32_to_le_bytes(outside::crc32(payload));
    assert(b.subrange(0, b.len() as int) =~= b);
    codec::lemma_stands_split(b, 0, magic, version + (body + crc));
    codec::lemma_stands_split(b, 4, version, body + crc);
    codec::lemma_stands_split(b, 6, body, crc);
    codec::lemma_u32_round_trip(b, 0, MAGIC, "segment doc-id set");
    codec::lemma_u16_round_trip(b, 4, VERSION, "segment doc-id set");
    codec::lemma_bytes_round_trip(b, 6, payload, "segment doc-id set");
    codec::lemma_u32_round_trip(
        b,
        6int + body.len(),
        outside::crc32(payload),
        "segment doc-id set",
    );
}

/// The part of ids in ascending order without repetition. Reading it gives back
/// exactly those ids.
pub fn write_doc_id_set(doc_ids: &[u64]) -> (r: Result<Vec<u8>, LaurusError>)
    ensures
        !sort::ascends(doc_ids@) ==> r == Err::<Vec<u8>, LaurusError>(
            LaurusError::UnsortedIds {
                valid_until: treemap::ascending_front(doc_ids@) as u64,
            },
        ),
        sort::ascends(doc_ids@) ==> {
            &&& r is Ok
            &&& take_ids(r->Ok_0@) == Ok::<Set<u64>, Fault>(doc_ids@.to_set())
            &&& take_payload(r->Ok_0@) is Ok
            &&& r->Ok_0@ == put_part(take_payload(r->Ok_0@)->Ok_0)
        },
{
    let set: RoaringTreemap = match treemap::treemap_from_sorted(doc_ids) {
        Ok(set) => set,
        Err(valid_until) => return Err(LaurusError::UnsortedIds { valid_until }),
    };
    let payload: Vec<u8> = match treemap::treemap_to_bytes(&set) {
        Ok(bytes) => bytes,
        Err(words) => return Err(LaurusError::IdSetEncoding { words }),
    };
    let mut out: Vec<u8> = Vec::new();
    codec::write_u32_le(&mut out, MAGIC);
    codec::write_u16_le(&mut out, VERSION);
    codec::write_bytes(&mut out, payload.as_slice());
    codec::write_u32_le(&mut out, outside::crc32_hash(payload.as_slice()));
    proof {
        assert(out@ =~= put_part(payload@));
        lemma_part_round_trip(payload@);
    }
    Ok(out)
}

/// The set of a segment's part.
pub fn decode(bytes: &[u8], segment_id: &str) -> (r: Result<RoaringTreemap, LaurusError>)
    ensures
        reads_ids(r, segment_id@, take_ids(bytes@)),
{
    let mut cursor: usize = 0;
    let magic: u32 = match codec::read_u32_le(bytes, &mut cursor, "segment doc-id set") {
        Ok(v) => v,
        Err(e) => return Err(e),
    };
    if magic != MAGIC {
        return Err(
            LaurusError::IdSetMagic { segment_id: segment_id.to_string(), id_set_magic: magic },
        );
    }
    let version: u16 = match codec::read_u16_le(bytes, &mut cursor, "segment doc-id set") {
        Ok(v) => v,
        Err(e) => return Err(e),
    };
    if version != VERSION {
        return Err(
            LaurusError::IdSetVersion {
                segment_id: segment_id.to_string(),
                id_set_version: version,
            },
        );
    }
    let payload: Vec<u8> = match codec::read_len_prefixed_bytes(
        bytes,
        &mut cursor,
        "segment doc-id set",
    ) {
        Ok(v) => v,
        Err(e) => return Err(e),
    };
    let crc: u32 = match codec::read_u32_le(bytes, &mut cursor, "segment doc-id set") {
        Ok(v) => v,
        Err(e) => return Err(e),
    };
    if crc != outside::crc32_hash(payload.as_slice()) {
        return Err(LaurusError::IdSetChecksum { segment_id: segment_id.to_string() });
    }
    match treemap::treemap_from_bytes(payload.as_slice()) {
        Ok(set) => Ok(set),
        Err(words) => Err(
            LaurusError::IdSetDecoding { segment_id: segment_id.to_string(), words },
        ),
    }
}

/// The set of a segment from its part, where it has one.
pub fn read_doc_id_set(part: Option<&[u8]>, segment_id: &str) -> (r: Result<
    Option<RoaringTreemap>,
    LaurusError,
>)
    ensures
        match part {
            None => r == Ok::<Option<RoaringTreemap>, LaurusError>(None),
            Some(bytes) => match take_ids(bytes@) {
                Err(fault) => r is Err && tells(r->Err_0, segment_id@, fault),
                Ok(ids) => r is Ok && r->Ok_0 is Some && treemap::treemap_ids(r->Ok_0->Some_0)
                    == ids,
            },
        },
{
    match part {
        None => Ok(None),
        Some(bytes) => match decode(bytes, segment_id) {
            Ok(set) => Ok(Some(set)),
            Err(e) => Err(e),
        },
    }
}

/// The set of a segment from its part, or, where it has none, the ids that its
/// field lengths were recorded for.
pub fn load_segment_doc_ids(
    part: Option<&[u8]>,
    segment_id: &str,
    recorded: Option<RoaringTreemap>,
) -> (r: Result<Option<RoaringTreemap>, LaurusError>)
    ensures
        match part {
            None => r == Ok::<Option<RoaringTreemap>, LaurusError>(recorded),
            Some(bytes) => match take_ids(bytes@) {
                Err(fault) => r is Err && tells(r->Err_0, segment_id@, fault),
                Ok(ids) => r is Ok && r->Ok_0 is Some && treemap::treemap_ids(r->Ok_0->Some_0)
                    == ids,
            },
        },
{
    match read_doc_id_set(part, segment_id) {
        Ok(Some(set)) => Ok(Some(set)),
        Ok(None) => Ok(recorded),
        Err(e) => Err(e),
    }
}

} // verus!
