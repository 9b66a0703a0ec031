//! What variable-length integers are, and which files are read.

use roaring::RoaringTreemap;

use vstd::bytes::*;
use vstd::prelude::*;

use crate::bkd_tree;
use crate::codec;
use crate::doc_id_set;
use crate::doc_values::DocValuesReader;
use crate::error::LaurusError;
use crate::outside;
use crate::stored_fields;

verus! {

/// The number that bytes spell in groups of seven bits, the first byte the lowest group.
pub open spec fn groups_value(s: Seq<u8>) -> nat
    decreases s.len(),
{
    if s.len() == 0 {
        0
    } else {
        s[0] as nat % 128 + 128 * groups_value(s.skip(1))
    }
}

/// A number is spelled in groups of seven bits, the lowest first: every byte but the last
/// has its top bit set, and no group is spelled that the number does not need.
pub proof fn lemma_varint(v: nat)
    ensures
        codec::put_varint(v).len() > 0,
        codec::put_varint(v).last() < 128,
        forall|i: int|
            0 <= i < codec::put_varint(v).len() - 1 ==> #[trigger] codec::put_varint(v)[i] >= 128,
        groups_value(codec::put_varint(v)) == v,
        codec::put_varint(v).len() > 1 ==> codec::put_varint(v).last() > 0,
    decreases v,
{
    let s = codec::put_varint(v);
    if v < 128 {
        assert(s.skip(1) =~= Seq::<u8>::empty());
        assert(groups_value(s.skip(1)) == 0);
    } else {
        let rest = codec::put_varint(v / 128);
        lemma_varint(v / 128);
        assert(s.skip(1) =~= rest);
        assert(s.last() == rest.last());
        assert forall|i: int| 0 <= i < s.len() - 1 implies #[trigger] s[i] >= 128 by {
            if i > 0 {
                assert(s[i] == rest[i - 1]);
            }
        }
        if rest.len() == 1 {
            assert(v / 128 == rest[0] as nat % 128 + 128 * groups_value(rest.skip(1)));
            assert(rest.skip(1) =~= Seq::<u8>::empty());
            assert(groups_value(rest.skip(1)) == 0);
        }
    }
}

/// What is read as a number is what its bytes spell: those up to the first byte without the
/// top bit, of which there are at most ten. A number is read wherever such bytes stand and
/// the number fits in 64 bits.
pub proof fn lemma_varint_is_read(b: Seq<u8>, p: int, q: int, what: &'static str)
    requires
        0 <= p < q <= b.len(),
        q - p <= 10,
        forall|i: int| p <= i < q - 1 ==> #[trigger] b[i] >= 128,
        b[q - 1] < 128,
    ensures
        groups_value(b.subrange(p, q)) <= u64::MAX <==> codec::take_varint(b, p, what) is Ok,
        codec::take_varint(b, p, what) is Ok ==> codec::take_varint(b, p, what)->Ok_0
            == (groups_value(b.subrange(p, q)) as u64, q),
{
    lemma_groups(b, p, q, 10, what);
}

proof fn lemma_groups(b: Seq<u8>, p: int, q: int, room: nat, what: &'static str)
    requires
        0 <= p < q <= b.len(),
        q - p <= room,
        forall|i: int| p <= i < q - 1 ==> #[trigger] b[i] >= 128,
        b[q - 1] < 128,
    ensures
        codec::varint_groups(b, p, room, what) == Ok::<(nat, int), LaurusError>(
            (groups_value(b.subrange(p, q)), q),
        ),
    decreases q - p,
{
    let s = b.subrange(p, q);
    assert(s[0] == b[p]);
    if p + 1 < q {
        assert(b[p] >= 128);
        lemma_groups(b, p + 1, q, (room - 1) as nat, what);
        assert(s.skip(1) =~= b.subrange(p + 1, q));
    } else {
        assert(s.skip(1) =~= Seq::<u8>::empty());
        assert(groups_value(s.skip(1)) == 0);
    }
}

// ---------------------------------------------------------------------------
// Which files are read
// ---------------------------------------------------------------------------

/// A set of ids is read only from bytes that begin with its mark and its version, and whose
/// checksum is that of the bytes of the set.
pub proof fn lemma_id_set_is_checked(
    bytes: &[u8],
    segment_id: &str,
    r: Result<RoaringTreemap, LaurusError>,
)
    requires
        call_ensures(doc_id_set::decode, (bytes, segment_id), r),
        r is Ok,
    ensures
        bytes@.len() > 10,
        spec_u32_from_le_bytes(bytes@.subrange(0, 4)) == 0x5344_4953,
        spec_u16_from_le_bytes(bytes@.subrange(4, 6)) == 1,
        exists|payload: Seq<u8>, q: int| #[trigger]
            is_checked(bytes@, 6, payload, q),
{
    let what = "segment doc-id set";
    assert(doc_id_set::take_ids(bytes@) is Ok);
    let (payload, q) = codec::take_bytes(bytes@, 6, what)->Ok_0;
    assert(is_checked(bytes@, 6, payload, q)) by {
        lemma_behind(bytes@, 6, 10, what);
    }
}

/// Whether a checksum stands behind bytes that end at `q`, with their count in front of
/// them behind `p`.
pub open spec fn is_checked(b: Seq<u8>, p: int, payload: Seq<u8>, q: int) -> bool {
    &&& p < q - payload.len()
    &&& q + 4 <= b.len()
    &&& b.subrange(q - payload.len(), q) == payload
    &&& spec_u32_from_le_bytes(b.subrange(q, q + 4)) == outside::crc32(payload)
}

proof fn lemma_behind(b: Seq<u8>, p: int, room: nat, what: &'static str)
    ensures
        codec::varint_groups(b, p, room, what) matches Ok((_, q)) ==> p < q,
    decreases room,
{
    if room > 0 && 0 <= p < b.len() && b[p] >= 128 {
        lemma_behind(b, p + 1, (room - 1) as nat, what);
    }
}

/// Columns are read only from bytes that begin with their mark and their major version.
pub proof fn lemma_columns_are_marked(file: Vec<u8>, r: Result<DocValuesReader, LaurusError>)
    requires
        call_ensures(DocValuesReader::load, (Some(file),), r),
        r is Ok,
    ensures
        file@.len() > 5,
        file@[0] == 0x44 && file@[1] == 0x56 && file@[2] == 0x46 && file@[3] == 0x46,
        file@[4] == 1,
{
    let mark = file@.subrange(0, 4);
    assert(mark == seq![0x44u8, 0x56, 0x46, 0x46]);
    assert(mark[0] == file@[0] && mark[1] == file@[1] && mark[2] == file@[2] && mark[3]
        == file@[3]);
    assert(file@.subrange(4, 6)[0] == file@[4]);
}

/// A point tree is read only from bytes that begin with its mark and its version, and that
/// say that a coordinate has eight bytes.
pub proof fn lemma_trees_are_marked(b: Seq<u8>)
    requires
        bkd_tree::take_header(b) is Ok,
    ensures
        b.len() >= 16,
        spec_u32_from_le_bytes(b.subrange(0, 4)) == 0x5444_4b42,
        spec_u32_from_le_bytes(b.subrange(4, 8)) == 4,
        spec_u32_from_le_bytes(b.subrange(8, 12)) == bkd_tree::take_header(b)->Ok_0.num_dims,
        spec_u32_from_le_bytes(b.subrange(12, 16)) == 8,
{
}

/// Stored documents are read only from bytes that begin with their mark and their major
/// version.
pub proof fn lemma_documents_are_marked(b: Seq<u8>)
    requires
        stored_fields::take_file(b) is Ok,
    ensures
        b.len() > 6,
        b[0] == 83 && b[1] == 68 && b[2] == 79 && b[3] == 67,
        b[4] == 1,
{
    let mark = b.subrange(0, 4);
    assert(mark[0] == b[0] && mark[1] == b[1] && mark[2] == b[2] && mark[3] == b[3]);
}

} // verus!
