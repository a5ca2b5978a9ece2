use vstd::prelude::*;
use crate::doc::{Doc, DocModel, FieldValue, doc_wf};
use crate::error::DbError;
use crate::util::PAGE_SIZE;
use vstd::bytes::{spec_u32_from_le_bytes, spec_u32_to_le_bytes};

verus! {

/// The byte image the outside codec produces for a document.
pub uninterp spec fn doc_encoding_of(d: DocModel) -> Seq<u8>;

/// The document the outside codec reads back from a byte image, if any.
pub uninterp spec fn doc_decoding_of(b: Seq<u8>) -> Option<DocModel>;

/// Relies on serde_json::to_vec over an order-preserving map
/// (indexmap::IndexMap): the encoding is a function of the document's fields
/// alone, and reading it back with serde_json::from_slice recovers a document
/// with distinct field names exactly.
#[verifier::external_body]
pub(crate) fn doc_to_json_bytes(d: &Doc) -> (r: Vec<u8>)
    ensures
        r@ == doc_encoding_of(d@),
        doc_wf(d@) ==> doc_decoding_of(r@) == Some(d@),
{
    let m: indexmap::IndexMap<&str, serde_json::Value> = d.fields.iter().map(
        |p| (p.0.as_str(), match &p.1 {
            FieldValue::Null => serde_json::Value::Null,
            FieldValue::Bool(b) => serde_json::Value::Bool(*b),
            FieldValue::Int(i) => serde_json::Value::from(*i),
            FieldValue::Text(s) => serde_json::Value::String(s.clone()),
        }),
    ).collect();
    serde_json::to_vec(&m).unwrap()
}

/// Relies on serde_json::from_slice into an order-preserving map
/// (indexmap::IndexMap): a byte image parses to at most one document, the
/// result's field names are distinct, and a non-object or non-scalar value is
/// rejected. Each map entry is converted to the engine's field representation.
#[verifier::external_body]
pub(crate) fn json_bytes_to_doc(b: &[u8]) -> (r: Option<Doc>)
    ensures
        r matches Some(d) ==> doc_decoding_of(b@) == Some(d@) && doc_wf(d@),
        r is None ==> doc_decoding_of(b@) is None,
{
    let conv = |v: serde_json::Value| match v {
        serde_json::Value::Null => Some(FieldValue::Null),
        serde_json::Value::Bool(x) => Some(FieldValue::Bool(x)),
        serde_json::Value::Number(x) => x.as_i64().map(FieldValue::Int),
        serde_json::Value::String(x) => Some(FieldValue::Text(x)),
        _ => None,
    };
    let m: indexmap::IndexMap<String, serde_json::Value> = serde_json::from_slice(b).ok()?;
    let fields = m.into_iter().map(|p| Some((p.0, conv(p.1)?))).collect::<Option<Vec<_>>>()?;
    Some(Doc { fields })
}

/// The full page image of one record: a little-endian length prefix, the
/// payload, and zero padding up to the page boundary.
pub open spec fn record_image(payload: Seq<u8>) -> Seq<u8> {
    spec_u32_to_le_bytes(payload.len() as u32) + payload + Seq::new(
        (PAGE_SIZE - 4 - payload.len()) as nat,
        |i: int| 0u8,
    )
}

/// The document held by a full page image, if any: the length prefix selects
/// the payload, and the payload must decode.
pub open spec fn record_doc(page: Seq<u8>) -> Option<DocModel> {
    if page.len() == PAGE_SIZE {
        let len = spec_u32_from_le_bytes(page.subrange(0, 4)) as int;
        if 4 + len <= PAGE_SIZE {
            doc_decoding_of(page.subrange(4, 4 + len))
        } else {
            None
        }
    } else {
        None
    }
}

/// Encodes `d` and frames it as one full page image. Fails with
/// `ValueTooLarge` exactly when the prefixed encoding does not fit in a page.
pub fn encode_record(d: &Doc) -> (r: Result<Vec<u8>, DbError>)
    ensures
        r is Err <==> doc_encoding_of(d@).len() + 4 > PAGE_SIZE,
        r matches Err(e) ==> e == DbError::ValueTooLarge,
        r matches Ok(page) ==> {
            &&& page@.len() == PAGE_SIZE
            &&& page@ == record_image(doc_encoding_of(d@))
            &&& doc_wf(d@) ==> record_doc(page@) == Some(d@)
        },
{
    let payload = doc_to_json_bytes(d);
    if payload.len() > PAGE_SIZE - 4 {
        return Err(DbError::ValueTooLarge);
    }
    proof {
        vstd::bytes::lemma_auto_spec_u32_to_from_le_bytes();
    }
    let header = crate::util::u32_to_bytes_le(payload.len() as u32);
    let mut page: Vec<u8> = Vec::new();
    page.extend_from_slice(header.as_slice());
    page.extend_from_slice(payload.as_slice());
    let base = page.len();
    while page.len() < PAGE_SIZE
        invariant
            base == 4 + payload@.len(),
            base <= page@.len() <= PAGE_SIZE,
            page@.subrange(0, base as int) == header@ + payload@,
            forall|j: int| base <= j < page@.len() ==> page@[j] == 0u8,
        decreases PAGE_SIZE - page@.len(),
    {
        let ghost prev = page@;
        page.push(0u8);
        proof {
            assert(page@.subrange(0, base as int) =~= prev.subrange(0, base as int));
        }
    }
    proof {
        assert(page@ =~= record_image(doc_encoding_of(d@)));
        if doc_wf(d@) {
            assert(page@.subrange(0, 4) =~= header@);
            assert(page@.subrange(4, 4 + payload@.len() as int) =~= payload@);
        }
    }
    Ok(page)
}

/// Reads the record held by a full page image, best effort: a length prefix
/// that overruns the page or a payload that does not decode yields `None`.
pub fn decode_record(page: &Vec<u8>) -> (r: Option<Doc>)
    requires
        page@.len() == PAGE_SIZE,
    ensures
        r matches Some(d) ==> record_doc(page@) == Some(d@) && doc_wf(d@),
        r is None ==> record_doc(page@) is None,
{
    let len_u32 = crate::util::bytes_to_u32_le(page.as_slice());
    proof {
        vstd::bytes::lemma_auto_spec_u32_to_from_le_bytes();
    }
    if len_u32 > (PAGE_SIZE - 4) as u32 {
        return None;
    }
    let len = len_u32 as usize;
    let payload: &[u8] = &page.as_slice()[4..4 + len];
    json_bytes_to_doc(payload)
}

} // verus!
