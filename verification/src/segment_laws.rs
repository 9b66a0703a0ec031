//! What a segment gives of its parts, and what it hides of deleted documents.

use vstd::prelude::*;

use crate::analyzed::AnalyzedTerm;
use crate::data::{DataValue, Document, FieldsView};
use crate::deletion::DeletionBitmap;
use crate::dictionary::TermInfo;
use crate::error::LaurusError;
use crate::names;
use crate::names::FieldMap;
use crate::posting::{DecodedPostingList, PostingView};
use crate::reader;
use crate::segment;
use crate::segment::{ManagedSegmentInfo, Membership, SegmentInfo};
use crate::segment_reader;
use crate::segment_reader::{PostingFormat, SegmentParts, SegmentReader};
use crate::treemap;

verus! {

// ---------------------------------------------------------------------------
// Postings
// ---------------------------------------------------------------------------

/// Whether a list is what the bytes of a term decode to: those that the dictionary points
/// to, in the format of its version.
pub open spec fn is_decoded<
    D: Fn(&SegmentInfo, u64, PostingFormat) -> Result<DecodedPostingList, LaurusError>,
>(
    decode: D,
    reader: SegmentReader,
    info: TermInfo,
    list: DecodedPostingList,
) -> bool {
    let version = reader.dictionary()->Ok_0->Some_0.posting_format_version;
    let format = if version == 1 {
        PostingFormat::V1
    } else if version == 2 {
        PostingFormat::V2
    } else {
        PostingFormat::V3
    };
    call_ensures(
        decode,
        (&reader.about(), info.posting_offset, format),
        Ok::<DecodedPostingList, LaurusError>(list),
    )
}

/// The postings of a term in a segment that has postings: those that its dictionary points
/// to, decoded, without those of deleted documents and in their order. There are none
/// where there is no dictionary, where it does not have the term, or where every posting
/// is of a deleted document.
pub proof fn lemma_postings_of_segment<
    D: Fn(&SegmentInfo, u64, PostingFormat) -> Result<DecodedPostingList, LaurusError>,
    N: Fn(&str, &DataValue) -> Result<Vec<AnalyzedTerm>, LaurusError>,
>(
    decode: D,
    analyze: N,
    reader: SegmentReader,
    field: Seq<char>,
    term: Seq<char>,
    out: Option<Seq<PostingView>>,
)
    requires
        reader.is_indexed(),
        reader::postings_are(decode, analyze, reader, field, term, out),
    ensures
        reader.dictionary() is Ok,
        match reader.dictionary()->Ok_0 {
            None => out is None,
            Some(d) => match names::value_of(d.terms@, field + seq![':'] + term) {
                None => out is None,
                Some(info) => exists|list: DecodedPostingList| #[trigger]
                    is_decoded(decode, reader, info, list) && {
                        let gone = reader.gone()->Ok_0;
                        let live = list.postings().filter(
                            |p: PostingView| !gone.contains(p.doc_id),
                        );
                        &&& reader.gone() is Ok
                        &&& match out {
                            Some(shown) => shown.len() > 0 && shown == live,
                            None => live.len() == 0,
                        }
                    },
            },
        },
{
    if let Some(d) = reader.dictionary()->Ok_0 {
        let key = field + seq![':'] + term;
        if let Some(info) = names::value_of(d.terms@, key) {
            let view = d.entry(field, term)->Some_0;
            let l = choose|l: Result<DecodedPostingList, LaurusError>| #[trigger]
                segment_reader::decoded_as(
                    decode,
                    reader.about(),
                    view,
                    d.posting_format_version,
                    l,
                ) && Ok::<Option<Seq<PostingView>>, LaurusError>(out) == match l {
                    Err(e) => Err::<Option<Seq<PostingView>>, LaurusError>(e),
                    Ok(l) => match reader.gone() {
                        Err(e) => Err(e),
                        Ok(g) => {
                            let live = segment_reader::live_postings(l.postings(), g);
                            if live.len() == 0 {
                                Ok(None)
                            } else {
                                Ok(Some(live))
                            }
                        },
                    },
                };
            assert(is_decoded(decode, reader, info, l->Ok_0));
        }
    }
}

// ---------------------------------------------------------------------------
// Deleted documents
// ---------------------------------------------------------------------------

/// A deleted document is hidden: a segment gives neither it, nor some of its fields, nor
/// the length of a field, nor a value of a column, nor a posting of it.
pub proof fn lemma_deleted_is_hidden<
    D: Fn(&SegmentInfo, u64, PostingFormat) -> Result<DecodedPostingList, LaurusError>,
    N: Fn(&str, &DataValue) -> Result<Vec<AnalyzedTerm>, LaurusError>,
    C: Fn(&[u8]) -> Result<Vec<(u64, DataValue)>, LaurusError>,
>(
    decode: D,
    analyze: N,
    values: C,
    reader: SegmentReader,
    id: u64,
    field: &str,
    asked: &[&str],
    document: Result<Option<Document>, LaurusError>,
    fields: Result<Option<FieldMap<DataValue>>, LaurusError>,
    length: Result<Option<u32>, LaurusError>,
    value: Result<Option<DataValue>, LaurusError>,
    deleted: Result<bool, LaurusError>,
    term: Seq<char>,
    list: Seq<PostingView>,
    k: int,
)
    requires
        reader.gone() is Ok,
        reader.gone()->Ok_0.contains(id),
        call_ensures(SegmentReader::document, (&reader, id), document),
        call_ensures(SegmentReader::document_fields, (&reader, id, asked), fields),
        call_ensures(SegmentReader::field_length, (&reader, id, field), length),
        call_ensures(SegmentReader::get_doc_value::<C>, (&reader, field, id, &values), value),
        call_ensures(SegmentReader::is_deleted, (&reader, id), deleted),
        reader.is_indexed(),
        reader::postings_are(decode, analyze, reader, field@, term, Some(list)),
        0 <= k < list.len(),
    ensures
        !(document is Ok && document->Ok_0 is Some),
        !(fields is Ok && fields->Ok_0 is Some),
        length == Ok::<Option<u32>, LaurusError>(None),
        value == Ok::<Option<DataValue>, LaurusError>(None),
        deleted == Ok::<bool, LaurusError>(true),
        list[k].doc_id != id,
{
    lemma_postings_of_segment(decode, analyze, reader, field@, term, Some(list));
    let d = reader.dictionary()->Ok_0->Some_0;
    let info = names::value_of(d.terms@, field@ + seq![':'] + term)->Some_0;
    let gone = reader.gone()->Ok_0;
    let live = |p: PostingView| !gone.contains(p.doc_id);
    let l = choose|l: DecodedPostingList| #[trigger]
        is_decoded(decode, reader, info, l) && list == l.postings().filter(live);
    l.postings().lemma_filter_pred(live, k);
}

/// Where a segment is not said to have deletions, or has no record of them, no document
/// of it is deleted; else those that the record marks.
pub proof fn lemma_record_of_deletions(
    info: SegmentInfo,
    parts: SegmentParts,
    reader: SegmentReader,
    id: u64,
    r: Result<bool, LaurusError>,
)
    requires
        call_ensures(SegmentReader::open, (info, parts), reader),
        call_ensures(SegmentReader::is_deleted, (&reader, id), r),
    ensures
        r == if !info.has_deletions {
            Ok::<bool, LaurusError>(false)
        } else {
            match parts.deletions {
                Err(e) => Err(e),
                Ok(None) => Ok(false),
                Ok(Some(b)) => Ok(b.marked().contains(id)),
            }
        },
{
}

// ---------------------------------------------------------------------------
// Stored documents
// ---------------------------------------------------------------------------

/// The documents of a segment without a `.docs` part are numbered from the least id of
/// the segment on, in their order.
pub proof fn lemma_documents_by_position(
    info: SegmentInfo,
    parts: SegmentParts,
    docs: Vec<Document>,
    reader: SegmentReader,
    id: u64,
    r: Result<Option<Document>, LaurusError>,
)
    requires
        parts.docs is None,
        parts.positional_docs == Some(Ok::<Vec<Document>, LaurusError>(docs)),
        info.min_doc_id + docs@.len() <= u64::MAX,
        !info.has_deletions,
        call_ensures(SegmentReader::open, (info, parts), reader),
        call_ensures(SegmentReader::document, (&reader, id), r),
    ensures
        r is Ok,
        r->Ok_0 is Some <==> info.min_doc_id <= id < info.min_doc_id + docs@.len(),
        r->Ok_0 is Some ==> r->Ok_0->Some_0@ == docs@[id - info.min_doc_id]@,
{
}

/// Whether a field is among those that are asked for.
pub open spec fn is_among(asked: Seq<&str>, name: Seq<char>) -> bool {
    exists|i: int| 0 <= i < asked.len() && #[trigger] asked[i]@ == name
}

/// The fields that are asked for of a document are those of the document itself: each is
/// there exactly where it is asked for and the document has it, and then with its value.
pub proof fn lemma_fields_of_document(
    document: FieldsView,
    asked: Seq<&str>,
    fields: Seq<(Seq<char>, DataValue)>,
    name: Seq<char>,
)
    requires
        segment_reader::holds_asked(document, asked, fields, name),
    ensures
        names::value_of(fields, name) is Some <==> is_among(asked, name) && names::value_of(
            document,
            name,
        ) is Some,
        names::value_of(fields, name) is Some ==> names::value_of(document, name) == Some(
            names::value_of(fields, name)->Some_0@,
        ),
{
    assert(segment_reader::is_asked(asked, name) == is_among(asked, name));
}

// ---------------------------------------------------------------------------
// File names
// ---------------------------------------------------------------------------

/// A file is that of the point tree of a field exactly where it is named by the segment,
/// the field and `bkd`, with dots between them.
pub proof fn lemma_name_of_tree_file(segment_id: Seq<char>, file: Seq<char>, field: Seq<char>)
    ensures
        segment_reader::tree_field(segment_id, file) == Some(field) <==> file == segment_id + "."@
            + field + ".bkd"@,
{
    let prefix = segment_id + "."@;
    let suffix = ".bkd"@;
    if file == segment_id + "."@ + field + ".bkd"@ {
        assert(file.subrange(0, prefix.len() as int) =~= prefix);
        let rest = file.skip(prefix.len() as int);
        assert(rest =~= field + suffix);
        assert(rest.subrange(rest.len() - suffix.len(), rest.len() as int) =~= suffix);
        assert(rest.take(rest.len() - suffix.len()) =~= field);
    }
    if segment_reader::tree_field(segment_id, file) == Some(field) {
        let rest = file.skip(prefix.len() as int);
        assert(file =~= prefix + rest);
        assert(rest =~= field + suffix);
        assert(file =~= segment_id + "."@ + field + ".bkd"@);
    }
}

// ---------------------------------------------------------------------------
// Ranges and what they hold
// ---------------------------------------------------------------------------

/// The width of a range is the number of its ids. A range that ends before it begins has
/// none, nor has the range of all ids, whose number takes one bit too many.
pub proof fn lemma_width(min: u64, max: u64, r: Option<u64>)
    requires
        call_ensures(segment::range_width, (min, max), r),
    ensures
        r matches Some(w) ==> w == Set::new(|x: u64| min <= x <= max).len() && w > 0,
        r is None <==> max < min || (min == 0 && max == u64::MAX),
{
    treemap::lemma_id_range(min, max);
    assert(treemap::id_range(min, max) =~= Set::new(|x: u64| min <= x <= max));
}

/// What the shape of a segment says of its ids has as many ids as the segment has documents,
/// all of its range; a segment with documents and a range of another width has no such
/// shape.
pub proof fn lemma_shape(min: u64, max: u64, count: u64, r: Option<Membership>)
    requires
        call_ensures(Membership::from_shape, (min, max, count), r),
        min > 0 || max < u64::MAX,
    ensures
        r is Some <==> count == 0 || count == Set::new(|x: u64| min <= x <= max).len(),
        r is Some ==> r->Some_0.ids(min, max) is Some,
        r is Some ==> r->Some_0.ids(min, max)->Some_0.len() == count,
        r is Some ==> r->Some_0.ids(min, max)->Some_0.subset_of(
            Set::new(|x: u64| min <= x <= max),
        ),
{
    let range = Set::new(|x: u64| min <= x <= max);
    treemap::lemma_id_range(min, max);
    assert(treemap::id_range(min, max) =~= range);
    if count > 0 && r is Some {
        assert(r->Some_0 == Membership::Range);
    }
}

/// A segment holds an id of its range exactly where the id is one of those that it is known
/// to hold.
pub proof fn lemma_holds(held: Membership, min: u64, max: u64, id: u64, r: Option<bool>)
    requires
        call_ensures(Membership::holds, (&held, id), r),
        min <= id <= max,
    ensures
        r is Some <==> held.ids(min, max) is Some,
        r is Some ==> r->Some_0 == held.ids(min, max)->Some_0.contains(id),
{
}

/// Of a segment with gaps of which it is not known what it holds, each gap takes one mark of
/// its range away, as far as there are marks.
pub proof fn lemma_gaps_take_marks(
    bitmap: DeletionBitmap,
    min: u64,
    max: u64,
    count: u64,
    r: u64,
)
    requires
        call_ensures(
            Membership::held_deletions,
            (&Membership::Unknown, &bitmap, min, max, count),
            r,
        ),
        min <= max,
        min > 0 || max < u64::MAX,
        count <= max - min + 1,
    ensures
        ({
            let marks = bitmap.marked().intersect(Set::new(|x: u64| min <= x <= max)).len();
            let gaps = max - min + 1 - count;
            &&& r > 0 ==> r + gaps == marks
            &&& r == 0 ==> marks <= gaps
        }),
{
    assert(treemap::id_range(min, max) =~= Set::new(|x: u64| min <= x <= max));
    assert(Membership::Unknown is Unknown);
}

/// The documents of a segment are those that are deleted and those that are not; where more
/// are said to be deleted than there are, none is left.
pub proof fn lemma_effective_count(s: ManagedSegmentInfo, r: u64)
    requires
        call_ensures(ManagedSegmentInfo::effective_doc_count, (&s,), r),
    ensures
        s.deleted_count <= s.segment_info.doc_count ==> r + s.deleted_count
            == s.segment_info.doc_count,
        s.deleted_count > s.segment_info.doc_count ==> r == 0,
{
}

} // verus!
