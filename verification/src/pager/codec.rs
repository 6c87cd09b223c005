//! The wire codec for everything the store persists.
//!
//! The store treats the encoding as an opaque deterministic codec: each
//! `..._enc` spec function names the bytes that bincode's standard
//! configuration produces for one shape of value, and the wrappers below
//! carry the two facts the store relies on: encoding is a function of the
//! value alone, and decoding a slice that starts with the encoding of a
//! value yields that value back (bincode reads one value greedily from
//! the front of the slice and reports how many bytes it consumed).

use vstd::prelude::*;

verus! {

use crate::pager::document::content_view_of;

/// One field's index as a mathematical sequence of
/// (value bytes, document ids) pairs.
pub open spec fn bucket_view_of(b: Seq<(Vec<u8>, Vec<usize>)>) -> Seq<(Seq<u8>, Seq<usize>)> {
    Seq::new(b.len(), |i: int| (b[i].0@, b[i].1@))
}

/// The bytes bincode produces for a content map (field name, value bytes).
pub uninterp spec fn content_enc(c: Seq<(Seq<char>, Seq<u8>)>) -> Seq<u8>;

/// The bytes bincode produces for a document's metadata: its id and its
/// allocated spans as (page, size) pairs.
pub uninterp spec fn meta_enc(id: usize, spans: Seq<(usize, usize)>) -> Seq<u8>;

/// The bytes bincode produces for the database header fields.
pub uninterp spec fn header_enc(page_size: usize, free_pages: Seq<usize>, last_used_page: usize) -> Seq<u8>;

/// The bytes bincode produces for one field's index: (value bytes, document ids).
pub uninterp spec fn bucket_enc(b: Seq<(Seq<u8>, Seq<usize>)>) -> Seq<u8>;

/// The bytes bincode produces for a string value.
pub uninterp spec fn str_enc(s: Seq<char>) -> Seq<u8>;

/// Relies on bincode::encode_to_vec (standard configuration): the result
/// is a deterministic function of the encoded value, and encoding cannot
/// fail for this shape of value (the only error source is the writer,
/// and the vector and size writers never refuse a write). An empty map
/// encodes as the single zero length byte.
#[verifier::external_body]
pub(crate) fn encode_content(c: &Vec<(String, Vec<u8>)>) -> (r: Vec<u8>)
    ensures
        r@ == content_enc(content_view_of(c@)),
        c@.len() == 0 ==> r@.len() == 1,
{
    bincode::encode_to_vec(c, bincode::config::standard()).unwrap()
}

/// What decoding promises: a slice that starts with the encoding of a
/// value decodes to exactly that value.
pub open spec fn content_dec_post(b: Seq<u8>, r: Option<Vec<(String, Vec<u8>)>>) -> bool {
    forall|c: Seq<(Seq<char>, Seq<u8>)>| content_enc(c).is_prefix_of(b)
        ==> (r matches Some(v) && content_view_of(v@) == c)
}

/// Relies on bincode::decode_from_slice (standard configuration): it reads
/// one value from the front of the slice, ignoring trailing bytes, so a
/// slice that starts with the encoding of a value decodes to that value.
#[verifier::external_body]
pub(crate) fn decode_content(b: &Vec<u8>) -> (r: Option<Vec<(String, Vec<u8>)>>)
    ensures
        content_dec_post(b@, r),
{
    match bincode::decode_from_slice::<Vec<(String, Vec<u8>)>, _>(b, bincode::config::standard()) {
        Ok((v, _)) => Some(v),
        Err(_) => None,
    }
}

/// Relies on bincode::encode_to_vec (standard configuration), as for
/// `encode_content`; encoding cannot fail for this shape of value. The
/// id and span list are encoded in sequence; every integer is a varint
/// of at most 9 bytes and the list adds one length varint, which bounds
/// the total by 18 bytes plus 18 per span.
#[verifier::external_body]
pub(crate) fn encode_meta(id: usize, spans: &Vec<(usize, usize)>) -> (r: Vec<u8>)
    ensures
        r@ == meta_enc(id, spans@),
        r@.len() <= 18 + 18 * spans@.len(),
{
    bincode::encode_to_vec((id, spans), bincode::config::standard()).unwrap()
}

/// What decoding promises, as for `content_dec_post`.
pub open spec fn meta_dec_post(b: Seq<u8>, r: Option<(usize, Vec<(usize, usize)>)>) -> bool {
    forall|id: usize, spans: Seq<(usize, usize)>| meta_enc(id, spans).is_prefix_of(b)
        ==> (r matches Some(p) && p.0 == id && p.1@ == spans)
}

/// Relies on bincode::decode_from_slice, as for `decode_content`.
#[verifier::external_body]
pub(crate) fn decode_meta(b: &Vec<u8>) -> (r: Option<(usize, Vec<(usize, usize)>)>)
    ensures
        meta_dec_post(b@, r),
{
    match bincode::decode_from_slice::<(usize, Vec<(usize, usize)>), _>(b, bincode::config::standard()) {
        Ok((v, _)) => Some(v),
        Err(_) => None,
    }
}

/// Relies on bincode::encode_to_vec (standard configuration), as for
/// `encode_content`; encoding cannot fail for this shape of value. The
/// three header fields are encoded in sequence; every integer is a
/// varint of at most 9 bytes and the free list adds one length varint,
/// which bounds the total by 27 bytes plus 9 per free page.
#[verifier::external_body]
pub(crate) fn encode_header(page_size: usize, free_pages: &Vec<usize>, last_used_page: usize) -> (r: Vec<u8>)
    ensures
        r@ == header_enc(page_size, free_pages@, last_used_page),
        r@.len() <= 27 + 9 * free_pages@.len(),
{
    bincode::encode_to_vec((page_size, free_pages, last_used_page), bincode::config::standard()).unwrap()
}

/// What decoding promises, as for `content_dec_post`.
pub open spec fn header_dec_post(b: Seq<u8>, r: Option<(usize, Vec<usize>, usize)>) -> bool {
    forall|ps: usize, free: Seq<usize>, last: usize| header_enc(ps, free, last).is_prefix_of(b)
        ==> (r matches Some(h) && h.0 == ps && h.1@ == free && h.2 == last)
}

/// Relies on bincode::decode_from_slice, as for `decode_content`.
#[verifier::external_body]
pub(crate) fn decode_header(b: &Vec<u8>) -> (r: Option<(usize, Vec<usize>, usize)>)
    ensures
        header_dec_post(b@, r),
{
    match bincode::decode_from_slice::<(usize, Vec<usize>, usize), _>(b, bincode::config::standard()) {
        Ok((v, _)) => Some(v),
        Err(_) => None,
    }
}

/// Relies on bincode::encode_to_vec (standard configuration), as for
/// `encode_content`; encoding cannot fail for this shape of value.
#[verifier::external_body]
pub(crate) fn encode_bucket(b: &Vec<(Vec<u8>, Vec<usize>)>) -> (r: Vec<u8>)
    ensures
        r@ == bucket_enc(bucket_view_of(b@)),
{
    bincode::encode_to_vec(b, bincode::config::standard()).unwrap()
}

/// What decoding promises, as for `content_dec_post`.
pub open spec fn bucket_dec_post(b: Seq<u8>, r: Option<Vec<(Vec<u8>, Vec<usize>)>>) -> bool {
    forall|bk: Seq<(Seq<u8>, Seq<usize>)>| bucket_enc(bk).is_prefix_of(b)
        ==> (r matches Some(v) && bucket_view_of(v@) == bk)
}

/// Relies on bincode::decode_from_slice, as for `decode_content`.
#[verifier::external_body]
pub(crate) fn decode_bucket(b: &Vec<u8>) -> (r: Option<Vec<(Vec<u8>, Vec<usize>)>>)
    ensures
        bucket_dec_post(b@, r),
{
    match bincode::decode_from_slice::<Vec<(Vec<u8>, Vec<usize>)>, _>(b, bincode::config::standard()) {
        Ok((v, _)) => Some(v),
        Err(_) => None,
    }
}

/// Relies on bincode::encode_to_vec (standard configuration), as for
/// `encode_content`: the bytes the standard configuration produces for
/// one string value; encoding cannot fail for this shape of value.
#[verifier::external_body]
pub(crate) fn encode_str(s: &String) -> (r: Vec<u8>)
    ensures
        r@ == str_enc(s@),
{
    bincode::encode_to_vec(s, bincode::config::standard()).unwrap()
}

} // verus!
