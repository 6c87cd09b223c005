//! The pager: page and free-list management over an in-memory page image,
//! multi-span document persistence, index maintenance, and queries.
//!
//! The pager owns every piece of shared state (the page image, the free
//! list, the page counter, the index); callers that share one pager
//! across threads wrap it in their own lock. Operations mutate the image
//! with several non-atomic page writes in sequence; a caller that saves
//! the image between operations gets no crash-consistency guarantee.

use vstd::prelude::*;

pub mod assoc;
pub mod codec;
pub mod document;
pub mod index;

verus! {

use vstd::pervasive::VecAdditionalExecFns;

use crate::pager::codec::content_enc;
use crate::pager::codec::header_enc;
use crate::pager::codec::meta_enc;
use crate::pager::document::Document;
use crate::pager::document::Span;
use crate::pager::document::chunks_of;
use crate::pager::document::content_has;
use crate::pager::document::unique_keys;
use crate::pager::index::Bucket;
use crate::pager::index::in_bucket;
use crate::pager::index::index_view_of;
use crate::pager::index::wf_index;
use crate::pager::codec::str_enc;
use crate::query::Isolator;
use crate::query::Query;

/// Bytes per storage page.
pub const PAGE_SIZE: usize = 4096;

/// Bytes reserved at the start of page 0 for the encoded header, the
/// magic marker included.
pub const HEADER_SIZE: usize = 300;

/// The page reserved for the system index document.
pub const INDEX_PAGE: usize = 1;

/// What a store operation can report.
#[derive(Debug, Clone, Copy, PartialEq, Eq, Structural)]
pub enum PagerError {
    /// The image does not begin with the magic marker.
    CorruptHeader,
    /// Persisted bytes did not decode as the expected shape.
    Decode,
    /// No document was ever written under the requested id.
    NotFound,
    /// An encoded block outgrew the fixed space reserved for it, or the
    /// page counter ran out.
    TooLarge,
}

/// The four magic bytes that open every database image.
pub open spec fn magic() -> Seq<u8> {
    seq![0xdeu8, 0xadu8, 0xbeu8, 0xefu8]
}

/// `n` zero bytes (none for a negative count).
pub open spec fn zeros(n: int) -> Seq<u8> {
    Seq::new(if n >= 0 { n as nat } else { 0 }, |i: int| 0u8)
}

/// The index rendered as a document content map: each field mapped to
/// the encoding of its buckets, in index order.
pub open spec fn index_content_of(ix: Seq<(String, Bucket)>) -> Seq<(Seq<char>, Seq<u8>)> {
    Seq::new(ix.len(), |i: int| (ix[i].0@,
        crate::pager::codec::bucket_enc(crate::pager::codec::bucket_view_of(ix[i].1@))))
}

/// An index view rendered as a document content map: each field mapped
/// to the encoding of its buckets, in index order.
pub open spec fn index_as_content(
    iv: Seq<(Seq<char>, Seq<(Seq<u8>, Seq<usize>)>)>,
) -> Seq<(Seq<char>, Seq<u8>)> {
    Seq::new(iv.len(), |i: int| (iv[i].0, crate::pager::codec::bucket_enc(iv[i].1)))
}

/// The mathematical shadow of one persisted document: its content map
/// and the (page, size) spans its encoded bytes occupy.
pub ghost struct DocModel {
    pub content: Seq<(Seq<char>, Seq<u8>)>,
    pub spans: Seq<(usize, usize)>,
}

/// Whether some queried (field, value) pair's bucket lists `id`.
pub open spec fn matches_query(
    ixv: Seq<(Seq<char>, Seq<(Seq<u8>, Seq<usize>)>)>,
    qv: Seq<(Seq<char>, Seq<char>)>,
    id: usize,
) -> bool {
    exists|j: int| #![trigger qv[j]] 0 <= j < qv.len()
        && in_bucket(ixv, qv[j].0, str_enc(qv[j].1), id)
}

/// The total of a span list's sizes.
pub open spec fn sizes_total(spans: Seq<(usize, usize)>) -> int
    decreases spans.len(),
{
    if spans.len() == 0 {
        0
    } else {
        spans[0].1 + sizes_total(spans.drop_first())
    }
}

/// Spans whose sizes agree pointwise with a chunk list total its length.
proof fn lemma_sizes_match_chunks(spans: Seq<(usize, usize)>, cs: Seq<Seq<u8>>)
    requires
        spans.len() == cs.len(),
        forall|i: int| 0 <= i < spans.len() ==> (#[trigger] spans[i]).1 == cs[i].len(),
    ensures
        sizes_total(spans) == crate::pager::document::lens_total(cs),
    decreases spans.len(),
{
    if spans.len() > 0 {
        assert(forall|i: int| 0 <= i < spans.drop_first().len()
            ==> spans.drop_first()[i] == spans[i + 1] && cs.drop_first()[i] == cs[i + 1]);
        lemma_sizes_match_chunks(spans.drop_first(), cs.drop_first());
    }
}

/// The page numbers of the spans from position `n` on: what shrinking a
/// document to `n` spans reclaims.
pub open spec fn freed_tail(sv: Seq<Span>, n: int) -> Seq<usize> {
    Seq::new((sv.len() - n) as nat, |j: int| crate::pager::document::span_page(sv[n + j]))
}

/// Whether an in-memory span list is the `Allocated` rendering of the
/// model's (page, size) pairs.
pub open spec fn spans_match(sv: Seq<Span>, ms: Seq<(usize, usize)>) -> bool {
    &&& sv.len() == ms.len()
    &&& forall|i: int| 0 <= i < sv.len()
        ==> #[trigger] sv[i] == (Span::Allocated { page: ms[i].0, size: ms[i].1 })
}

/// The document store over an in-memory page image.
pub struct Pager {
    /// The page image: entry `p` holds the `PAGE_SIZE` bytes of page `p`.
    pages: Vec<Vec<u8>>,
    /// Reclaimable page numbers, most recently freed last (reused first).
    free_pages: Vec<usize>,
    /// High-water mark: the largest page number ever handed out.
    last_used_page: usize,
    /// Ids of the documents that can currently be read back.
    written: Vec<usize>,
    /// The secondary index.
    indices: Vec<(String, Bucket)>,
    /// The index document's current spans, mirrored so rewrites of the
    /// index reuse its pages in place.
    index_spans: Vec<(usize, usize)>,
    /// Whether the index document is live (written in this session).
    index_present: bool,
    /// The model of every document written in this session.
    docs: Ghost<Map<usize, DocModel>>,
    /// Ids allocated by `doc` and not yet written.
    reserved: Ghost<Set<usize>>,
    /// Ids inherited from a reopened image: the contracts claim nothing
    /// about them.
    stale: Ghost<Set<usize>>,
    /// Which page belongs to which document (or reserved id): the
    /// functional map that makes page ownership unique.
    owner: Ghost<Map<usize, usize>>,
}

impl Pager {
    /// The model of every document written in this session.
    pub closed spec fn model(&self) -> Map<usize, DocModel> {
        self.docs@
    }

    /// Ids carried over from a reopened image, outside the model.
    pub closed spec fn stale_set(&self) -> Set<usize> {
        self.stale@
    }

    /// Ids allocated but not yet written.
    pub closed spec fn reserved_set(&self) -> Set<usize> {
        self.reserved@
    }

    /// The index as a mathematical value.
    pub closed spec fn index_view(&self) -> Seq<(Seq<char>, Seq<(Seq<u8>, Seq<usize>)>)> {
        index_view_of(self.indices@)
    }

    /// The free list as a mathematical value.
    pub closed spec fn free_list(&self) -> Seq<usize> {
        self.free_pages@
    }

    /// The high-water page counter.
    pub closed spec fn high_water(&self) -> usize {
        self.last_used_page
    }

    /// The page image is well shaped: one entry per page up to the
    /// high-water mark, each of exactly `PAGE_SIZE` bytes, the magic
    /// marker opening page 0.
    pub closed spec fn pages_ok(&self) -> bool {
        &&& self.pages@.len() == self.last_used_page + 1
        &&& forall|i: int| 0 <= i < self.pages@.len()
            ==> (#[trigger] self.pages@[i])@.len() == PAGE_SIZE
        &&& self.pages@[0]@.take(4) == magic()
        &&& self.last_used_page >= 1
    }

    /// Free pages are distinct ordinary pages owned by nobody.
    pub closed spec fn free_ok(&self) -> bool {
        &&& forall|i: int| 0 <= i < self.free_pages@.len()
            ==> 2 <= #[trigger] self.free_pages@[i] <= self.last_used_page
        &&& forall|i: int| 0 <= i < self.free_pages@.len()
            ==> !self.owner@.dom().contains(#[trigger] self.free_pages@[i])
        &&& forall|i: int, j: int| 0 <= i < j < self.free_pages@.len()
            ==> self.free_pages@[i] != self.free_pages@[j]
    }

    /// Every live document and reserved id claims its pages in the
    /// ownership map; the map being functional makes ownership unique.
    pub closed spec fn owner_ok(&self) -> bool {
        &&& forall|p: usize| #[trigger] self.owner@.dom().contains(p)
            ==> 1 <= p <= self.last_used_page
        &&& forall|id: usize| #[trigger] self.docs@.dom().contains(id)
            ==> self.owner@.dom().contains(id) && self.owner@[id] == id
        &&& forall|id: usize, i: int|
            #![trigger self.docs@[id].spans[i]]
            self.docs@.dom().contains(id) && 0 <= i < self.docs@[id].spans.len()
            ==> self.owner@.dom().contains(self.docs@[id].spans[i].0)
                && self.owner@[self.docs@[id].spans[i].0] == id
        &&& forall|id: usize| #[trigger] self.reserved@.contains(id)
            ==> self.owner@.dom().contains(id) && self.owner@[id] == id
                && !self.docs@.dom().contains(id) && 2 <= id
    }

    /// One persisted document is intact in the image: its metadata page
    /// decodes to its spans, and its spans carve the image into exactly
    /// the chunks of its encoded content.
    pub closed spec fn doc_ok(&self, id: usize, m: DocModel) -> bool {
        let buf = content_enc(m.content);
        let cs = chunks_of(buf, PAGE_SIZE as int);
        &&& 1 <= id <= self.last_used_page
        &&& meta_enc(id, m.spans).len() <= PAGE_SIZE
        &&& meta_enc(id, m.spans).is_prefix_of(self.pages@[id as int]@)
        &&& unique_keys(m.content)
        &&& m.spans.len() == cs.len()
        &&& forall|i: int| 0 <= i < m.spans.len()
            ==> 2 <= (#[trigger] m.spans[i]).0 <= self.last_used_page
        &&& forall|i: int| 0 <= i < m.spans.len()
            ==> (#[trigger] m.spans[i]).1 == cs[i].len()
        &&& forall|i: int| 0 <= i < m.spans.len()
            ==> self.pages@[(#[trigger] m.spans[i]).0 as int]@.take(m.spans[i].1 as int) == cs[i]
        &&& forall|i: int, j: int| 0 <= i < j < m.spans.len()
            ==> m.spans[i].0 != m.spans[j].0
        &&& forall|i: int| 0 <= i < m.spans.len() ==> (#[trigger] m.spans[i]).0 != id
    }

    /// Every modeled document is intact.
    pub closed spec fn docs_ok(&self) -> bool {
        forall|id: usize| #[trigger] self.docs@.dom().contains(id)
            ==> self.doc_ok(id, self.docs@[id])
    }

    /// `written` lists every modeled id; anything else it lists is stale.
    pub closed spec fn written_ok(&self) -> bool {
        &&& forall|id: usize| #[trigger] self.docs@.dom().contains(id)
            ==> self.written@.contains(id)
        &&& forall|i: int| 0 <= i < self.written@.len()
            ==> self.docs@.dom().contains(#[trigger] self.written@[i])
                || self.stale@.contains(self.written@[i])
    }

    /// The index document's bookkeeping matches the model.
    pub closed spec fn index_doc_ok(&self) -> bool {
        &&& self.index_present == self.docs@.dom().contains(INDEX_PAGE)
        &&& self.index_present ==> self.docs@[INDEX_PAGE].spans == self.index_spans@
    }

    /// The index is sound and complete for non-stale ids: such an id
    /// sits in the bucket for (field, value) exactly when that live
    /// document's current content holds that field with that value.
    pub closed spec fn index_ok(&self) -> bool {
        let ixv = index_view_of(self.indices@);
        &&& forall|f: Seq<char>, v: Seq<u8>, id: usize|
            #![trigger in_bucket(ixv, f, v, id)]
            in_bucket(ixv, f, v, id) && !self.stale@.contains(id)
                ==> id != INDEX_PAGE && self.docs@.dom().contains(id)
                    && content_has(self.docs@[id].content, f, v)
        &&& forall|id: usize, f: Seq<char>, v: Seq<u8>|
            #![trigger content_has(self.docs@[id].content, f, v)]
            self.docs@.dom().contains(id) && !self.stale@.contains(id) && id != INDEX_PAGE
                && content_has(self.docs@[id].content, f, v)
                ==> in_bucket(ixv, f, v, id)
    }

    /// The persistence invariant: everything except the index semantics.
    pub closed spec fn inv_core(&self) -> bool {
        &&& self.pages_ok()
        &&& self.free_ok()
        &&& self.owner_ok()
        &&& self.docs_ok()
        &&& self.written_ok()
        &&& self.index_doc_ok()
        &&& !self.reserved@.contains(INDEX_PAGE)
        &&& wf_index(index_view_of(self.indices@))
    }

    /// The index document's persisted content is the current index,
    /// rendered as a content map, whenever the index document is live.
    pub closed spec fn index_doc_content_ok(&self) -> bool {
        self.index_present
            ==> self.docs@[INDEX_PAGE].content == index_content_of(self.indices@)
    }

    /// The full invariant of a usable pager.
    pub closed spec fn wf(&self) -> bool {
        &&& self.inv_core()
        &&& self.index_ok()
        &&& self.index_doc_content_ok()
    }

    /// Append `n` to the free list for future reuse. The header is not
    /// flushed for a free alone; the next allocation persists it.
    fn free(&mut self, n: usize)
        requires
            2 <= n <= old(self).last_used_page,
            forall|i: int| 0 <= i < old(self).free_pages@.len()
                ==> old(self).free_pages@[i] != n,
        ensures
            final(self).free_pages@ == old(self).free_pages@.push(n),
            final(self).pages == old(self).pages,
            final(self).last_used_page == old(self).last_used_page,
            final(self).written == old(self).written,
            final(self).indices == old(self).indices,
            final(self).index_spans == old(self).index_spans,
            final(self).index_present == old(self).index_present,
            final(self).docs == old(self).docs,
            final(self).reserved == old(self).reserved,
            final(self).stale == old(self).stale,
            final(self).owner == old(self).owner,
    {
        self.free_pages.push(n);
    }

    /// Page 0 currently holds the magic marker, the encoded header, and
    /// zero padding: the in-memory free list and high-water mark are on
    /// the image.
    pub closed spec fn header_persisted(&self) -> bool {
        let enc = header_enc(PAGE_SIZE, self.free_pages@, self.last_used_page);
        &&& self.pages@.len() >= 1
        &&& self.pages@[0]@ == magic() + enc + zeros(PAGE_SIZE - 4 - enc.len())
    }

    /// Re-encode the header (page size, free list, high-water mark) into
    /// page 0, behind the magic marker, zero-padded to `HEADER_SIZE`.
    /// Succeeds exactly when the encoded header fits its fixed block.
    fn persist_header(&mut self) -> (r: Result<(), PagerError>)
        requires
            old(self).pages@.len() >= 1,
            old(self).pages@[0]@.len() == PAGE_SIZE,
            old(self).pages@[0]@.take(4) == magic(),
        ensures
            final(self).pages@.len() == old(self).pages@.len(),
            forall|i: int| 1 <= i < old(self).pages@.len()
                ==> final(self).pages@[i] == old(self).pages@[i],
            final(self).pages@[0]@.len() == PAGE_SIZE,
            final(self).pages@[0]@.take(4) == magic(),
            final(self).free_pages == old(self).free_pages,
            final(self).last_used_page == old(self).last_used_page,
            final(self).written == old(self).written,
            final(self).indices == old(self).indices,
            final(self).index_spans == old(self).index_spans,
            final(self).index_present == old(self).index_present,
            final(self).docs == old(self).docs,
            final(self).reserved == old(self).reserved,
            final(self).stale == old(self).stale,
            final(self).owner == old(self).owner,
            r matches Err(_) ==> final(self).pages == old(self).pages,
            r matches Ok(_) <==> header_enc(PAGE_SIZE, old(self).free_pages@,
                old(self).last_used_page).len() <= HEADER_SIZE - 4,
            r matches Err(e) ==> e == PagerError::TooLarge,
            header_enc(PAGE_SIZE, old(self).free_pages@, old(self).last_used_page).len()
                <= 27 + 9 * old(self).free_pages@.len(),
            r matches Ok(_) ==> final(self).header_persisted(),
    {
        let body = codec::encode_header(PAGE_SIZE, &self.free_pages, self.last_used_page);
        if body.len() > HEADER_SIZE - 4 {
            return Err(PagerError::TooLarge);
        }
        let mut page: Vec<u8> = Vec::new();
        page.push(0xde);
        page.push(0xad);
        page.push(0xbe);
        page.push(0xef);
        proof {
            assert(page@ =~= magic());
            assert(page@ =~= magic() + body@.take(0));
        }
        let mut i: usize = 0;
        while i < body.len()
            invariant
                i <= body@.len(),
                body@.len() <= PAGE_SIZE - 4,
                page@.len() == 4 + i,
                page@ == magic() + body@.take(i as int),
            decreases body@.len() - i,
        {
            let ghost pg = page@;
            page.push(body[i]);
            proof {
                assert(page@ =~= magic() + body@.take(i as int + 1));
            }
            i += 1;
        }
        proof {
            assert(body@.take(body@.len() as int) =~= body@);
            assert(page@ =~= magic() + body@ + zeros(page@.len() - 4 - body@.len()));
        }
        while page.len() < PAGE_SIZE
            invariant
                4 + body@.len() <= page@.len() <= PAGE_SIZE,
                page@ == magic() + body@ + zeros(page@.len() - 4 - body@.len()),
            decreases PAGE_SIZE - page@.len(),
        {
            let ghost pg = page@;
            page.push(0);
            proof {
                assert(page@ =~= magic() + body@ + zeros(page@.len() - 4 - body@.len()));
            }
        }
        proof {
            assert(page@.take(4) =~= magic());
        }
        self.pages.set(0, page);
        Ok(())
    }

    /// Allocate a page number: pop the most recently freed page if any
    /// (freed pages are preferred over growing the image), else advance
    /// the high-water mark and add a fresh zeroed page. The header is
    /// persisted after the allocation.
    fn get_free_page(&mut self) -> (r: Result<usize, PagerError>)
        requires
            old(self).pages_ok(),
            old(self).free_ok(),
            forall|p: usize| #[trigger] old(self).owner@.dom().contains(p)
                ==> 1 <= p <= old(self).last_used_page,
        ensures
            final(self).written == old(self).written,
            final(self).indices == old(self).indices,
            final(self).index_spans == old(self).index_spans,
            final(self).index_present == old(self).index_present,
            final(self).docs == old(self).docs,
            final(self).reserved == old(self).reserved,
            final(self).stale == old(self).stale,
            final(self).owner == old(self).owner,
            final(self).pages_ok(),
            final(self).free_ok(),
            old(self).last_used_page <= final(self).last_used_page,
            forall|i: int| 1 <= i < old(self).pages@.len()
                ==> final(self).pages@[i] == old(self).pages@[i],
            r matches Ok(p) ==> ({
                &&& 2 <= p <= final(self).last_used_page
                &&& !final(self).owner@.dom().contains(p)
                &&& forall|i: int| 0 <= i < final(self).free_pages@.len()
                    ==> final(self).free_pages@[i] != p
                &&& (old(self).free_pages@.len() > 0 ==> {
                    &&& p == old(self).free_pages@.last()
                    &&& final(self).free_pages@ == old(self).free_pages@.drop_last()
                    &&& final(self).last_used_page == old(self).last_used_page
                })
                &&& (old(self).free_pages@.len() == 0 ==> {
                    &&& p == old(self).last_used_page + 1
                    &&& final(self).free_pages@ == old(self).free_pages@
                    &&& final(self).last_used_page == old(self).last_used_page + 1
                })
            }),
            r matches Err(_) ==> ({
                &&& final(self).free_pages@ == old(self).free_pages@
                &&& final(self).last_used_page == old(self).last_used_page
            }),
            r matches Err(e) ==> e == PagerError::TooLarge,
            old(self).free_pages@.len() > 0
                && header_enc(PAGE_SIZE, old(self).free_pages@.drop_last(),
                    old(self).last_used_page).len() <= HEADER_SIZE - 4
                ==> r matches Ok(_),
            old(self).free_pages@.len() == 0 && old(self).last_used_page < usize::MAX - 1
                ==> r matches Ok(_),
            old(self).free_pages@.len() > 0
                ==> header_enc(PAGE_SIZE, old(self).free_pages@.drop_last(),
                        old(self).last_used_page).len()
                    <= 27 + 9 * (old(self).free_pages@.len() - 1),
            r matches Ok(_) ==> final(self).header_persisted(),
    {
        let popped = self.free_pages.pop();
        match popped {
            Some(p) => {
                proof {
                    assert(old(self).free_pages@[old(self).free_pages@.len() - 1] == p);
                }
                match self.persist_header() {
                    Ok(()) => Ok(p),
                    Err(e) => {
                        self.free_pages.push(p);
                        proof {
                            assert(self.free_pages@ =~= old(self).free_pages@);
                        }
                        Err(e)
                    },
                }
            },
            None => {
                if self.last_used_page >= usize::MAX - 1 {
                    return Err(PagerError::TooLarge);
                }
                let p = self.last_used_page + 1;
                self.last_used_page = p;
                let mut fresh: Vec<u8> = Vec::new();
                let mut i: usize = 0;
                while i < PAGE_SIZE
                    invariant
                        fresh@.len() == i,
                        i <= PAGE_SIZE,
                    decreases PAGE_SIZE - i,
                {
                    fresh.push(0);
                    i += 1;
                }
                self.pages.push(fresh);
                match self.persist_header() {
                    Ok(()) => Ok(p),
                    Err(e) => {
                        self.last_used_page = self.last_used_page - 1;
                        let _ = self.pages.pop();
                        proof {
                            assert(self.pages@ =~= old(self).pages@);
                        }
                        Err(e)
                    },
                }
            },
        }
    }

    /// Overwrite page `p` with `data`, zero-padded to the page size.
    fn write_page(&mut self, p: usize, data: &Vec<u8>)
        requires
            p < old(self).pages@.len(),
            data@.len() <= PAGE_SIZE,
        ensures
            final(self).pages@.len() == old(self).pages@.len(),
            forall|q: int| 0 <= q < old(self).pages@.len() && q != p
                ==> final(self).pages@[q] == old(self).pages@[q],
            final(self).pages@[p as int]@.len() == PAGE_SIZE,
            final(self).pages@[p as int]@.take(data@.len() as int) == data@,
            final(self).free_pages == old(self).free_pages,
            final(self).last_used_page == old(self).last_used_page,
            final(self).written == old(self).written,
            final(self).indices == old(self).indices,
            final(self).index_spans == old(self).index_spans,
            final(self).index_present == old(self).index_present,
            final(self).docs == old(self).docs,
            final(self).reserved == old(self).reserved,
            final(self).stale == old(self).stale,
            final(self).owner == old(self).owner,
    {
        let mut page = crate::pager::index::copy_bytes(data);
        while page.len() < PAGE_SIZE
            invariant
                data@.len() <= page@.len() <= PAGE_SIZE,
                page@.take(data@.len() as int) == data@,
            decreases PAGE_SIZE - page@.len(),
        {
            let ghost pg = page@;
            page.push(0);
            proof {
                assert(page@.take(data@.len() as int) =~= pg.take(data@.len() as int));
            }
        }
        proof {
            assert(page@.take(data@.len() as int) =~= data@);
        }
        self.pages.set(p, page);
    }

    /// Take the document `id` out of the model: used when a failure in
    /// the middle of persistence leaves its pages in an unknown state.
    fn mark_unmodeled(&mut self, id: usize)
        ensures
            final(self).docs@ == old(self).docs@.remove(id),
            final(self).reserved@ == old(self).reserved@.remove(id),
            final(self).stale@ == old(self).stale@.insert(id),
            final(self).pages == old(self).pages,
            final(self).free_pages == old(self).free_pages,
            final(self).last_used_page == old(self).last_used_page,
            final(self).written == old(self).written,
            final(self).indices == old(self).indices,
            final(self).index_spans == old(self).index_spans,
            final(self).index_present == old(self).index_present,
            final(self).owner == old(self).owner,
    {
        self.docs = Ghost(self.docs@.remove(id));
        self.reserved = Ghost(self.reserved@.remove(id));
        self.stale = Ghost(self.stale@.insert(id));
    }

    /// Open a database from the bytes of its backing file. An empty
    /// image is initialized fresh (header written, page 1 reserved for
    /// the index document); a non-empty image must open with the magic
    /// marker, or `CorruptHeader` is reported and nothing else is read.
    pub fn new(file: Vec<u8>) -> (r: Result<Pager, PagerError>)
        ensures
            r matches Ok(p) ==> p.wf(),
            file@.len() == 0 ==> r matches Ok(_),
            r matches Ok(p) ==> (file@.len() == 0 ==> {
                &&& p.stale_set() =~= Set::<usize>::empty()
                &&& p.reserved_set() =~= Set::<usize>::empty()
                &&& p.model().dom() =~= Set::<usize>::empty().insert(INDEX_PAGE)
                &&& p.free_list() =~= Seq::<usize>::empty()
                &&& p.high_water() == 2
                &&& p.index_view() =~= Seq::<(Seq<char>, Seq<(Seq<u8>, Seq<usize>)>)>::empty()
                &&& p.header_persisted()
                &&& p.model()[INDEX_PAGE].content =~= Seq::<(Seq<char>, Seq<u8>)>::empty()
            }),
            file@.len() >= 1 && !(file@.len() >= 4 && file@.take(4) == magic())
                ==> r == Err::<Pager, PagerError>(PagerError::CorruptHeader),
            r matches Err(e) ==> e == PagerError::CorruptHeader || e == PagerError::Decode,
            r matches Ok(p) ==> (file@.len() >= 1
                ==> forall|ps: usize, fp: Seq<usize>, lu: usize|
                    #![trigger header_enc(ps, fp, lu)]
                    header_enc(ps, fp, lu).is_prefix_of(file@.subrange(4, HEADER_SIZE as int))
                    ==> p.high_water() == (if lu < 1 { 1usize } else { lu })
                        && forall|x: usize| p.free_list().contains(x)
                            ==> fp.contains(x) && 2 <= x <= p.high_water()),
    {
        if file.len() == 0 {
            let mut page0: Vec<u8> = Vec::new();
            page0.push(0xde);
            page0.push(0xad);
            page0.push(0xbe);
            page0.push(0xef);
            proof {
                assert(page0@.take(4) =~= magic());
            }
            while page0.len() < PAGE_SIZE
                invariant
                    4 <= page0@.len() <= PAGE_SIZE,
                    page0@.take(4) == magic(),
                decreases PAGE_SIZE - page0@.len(),
            {
                let ghost pg = page0@;
                page0.push(0);
                proof {
                    assert(page0@.take(4) =~= pg.take(4));
                }
            }
            let mut page1: Vec<u8> = Vec::new();
            while page1.len() < PAGE_SIZE
                invariant
                    page1@.len() <= PAGE_SIZE,
                decreases PAGE_SIZE - page1@.len(),
            {
                page1.push(0);
            }
            let mut pages: Vec<Vec<u8>> = Vec::new();
            pages.push(page0);
            pages.push(page1);
            let mut pager = Pager {
                pages,
                free_pages: Vec::new(),
                last_used_page: 1,
                written: Vec::new(),
                indices: Vec::new(),
                index_spans: Vec::new(),
                index_present: false,
                docs: Ghost(Map::tracked_empty()),
                reserved: Ghost(Set::empty()),
                stale: Ghost(Set::empty()),
                owner: Ghost(Map::tracked_empty()),
            };
            match pager.persist_header() {
                Ok(()) => {},
                Err(e) => {
                    proof {
                        assert(false);
                    }
                    return Err(e);
                },
            }
            proof {
                assert(pager.inv_core());
            }
            match pager.update_indices() {
                Ok(()) => {},
                Err(e) => {
                    proof {
                        assert(false);
                    }
                    return Err(e);
                },
            }
            proof {
                assert(pager.wf());
                assert(pager.model().dom() =~= Set::<usize>::empty().insert(INDEX_PAGE));
                assert(pager.reserved_set() =~= Set::<usize>::empty());
                assert(pager.stale_set() =~= Set::<usize>::empty());
                assert(pager.high_water() == 2);
                assert(pager.index_view() =~=
                    Seq::<(Seq<char>, Seq<(Seq<u8>, Seq<usize>)>)>::empty());
                assert(pager.docs@[INDEX_PAGE].content == index_content_of(pager.indices@));
                assert(pager.model()[INDEX_PAGE].content
                    =~= Seq::<(Seq<char>, Seq<u8>)>::empty());
            }
            Ok(pager)
        } else {
            if file.len() < 4 {
                return Err(PagerError::CorruptHeader);
            }
            if !(file[0] == 0xde && file[1] == 0xad && file[2] == 0xbe && file[3] == 0xef) {
                proof {
                    assert(file@.take(4).len() == 4);
                    assert(file@.take(4) != magic()) by {
                        if file@.take(4) == magic() {
                            assert(file@.take(4)[0] == 0xde && file@.take(4)[1] == 0xad
                                && file@.take(4)[2] == 0xbe && file@.take(4)[3] == 0xef);
                        }
                    }
                }
                return Err(PagerError::CorruptHeader);
            }
            proof {
                assert(file@.take(4) =~= magic());
            }
            if file.len() < HEADER_SIZE {
                return Err(PagerError::Decode);
            }
            let hdr_bytes = crate::pager::document::subvec(&file, 4, HEADER_SIZE);
            let hdr_opt = codec::decode_header(&hdr_bytes);
            let hdr = match hdr_opt {
                Some(h) => h,
                None => {
                    return Err(PagerError::Decode);
                },
            };
            let ghost hdr_g = hdr;
            let free_raw = hdr.1;
            let last_raw = hdr.2;
            let last = if last_raw < 1 { 1 } else { last_raw };
            if last > file.len() / PAGE_SIZE {
                return Err(PagerError::Decode);
            }
            let flen = file.len();
            let mut pages: Vec<Vec<u8>> = Vec::new();
            let mut p: usize = 0;
            proof {
                assert(last * PAGE_SIZE <= file@.len()) by (nonlinear_arith)
                    requires
                        last as int <= file@.len() as int / (PAGE_SIZE as int),
                        PAGE_SIZE >= 1,
                {}
            }
            while p <= last
                invariant
                    last >= 1,
                    last * PAGE_SIZE <= file@.len(),
                    p <= last + 1,
                    pages@.len() == p,
                    forall|q: int| 0 <= q < p ==> (#[trigger] pages@[q])@.len() == PAGE_SIZE,
                    p >= 1 ==> pages@[0]@.take(4) == file@.take(4),
                    file@.len() >= HEADER_SIZE,
                    flen == file@.len(),
                decreases last + 1 - p,
            {
                proof {
                    assert(p * PAGE_SIZE <= last * PAGE_SIZE) by (nonlinear_arith)
                        requires
                            p <= last,
                            PAGE_SIZE >= 1,
                    {}
                    assert(last * PAGE_SIZE <= flen);
                }
                let start = p * PAGE_SIZE;
                let end = if file.len() - start > PAGE_SIZE { start + PAGE_SIZE } else { file.len() };
                let mut page = crate::pager::document::subvec(&file, start, end);
                let ghost raw = page@;
                while page.len() < PAGE_SIZE
                    invariant
                        raw.len() <= page@.len() <= PAGE_SIZE,
                        page@.take(raw.len() as int) == raw,
                    decreases PAGE_SIZE - page@.len(),
                {
                    let ghost pg = page@;
                    page.push(0);
                    proof {
                        assert(page@.take(raw.len() as int) =~= pg.take(raw.len() as int));
                    }
                }
                proof {
                    if p == 0 {
                        assert(raw == file@.subrange(0, end as int));
                        assert(raw.len() >= 4);
                        assert(page@.take(4) =~= file@.take(4)) by {
                            assert(page@.take(raw.len() as int) == raw);
                            assert(forall|x: int| 0 <= x < 4 ==> page@[x] == raw[x]);
                            assert(forall|x: int| 0 <= x < 4 ==> raw[x] == file@[x]);
                        }
                    }
                }
                pages.push(page);
                p += 1;
            }
            let mut free: Vec<usize> = Vec::new();
            let mut fi: usize = 0;
            while fi < free_raw.len()
                invariant
                    fi <= free_raw@.len(),
                    forall|i: int| 0 <= i < free@.len()
                        ==> 2 <= #[trigger] free@[i] <= last,
                    forall|i: int, j: int| 0 <= i < j < free@.len()
                        ==> free@[i] != free@[j],
                    forall|i: int| 0 <= i < free@.len()
                        ==> free_raw@.contains(#[trigger] free@[i]),
                decreases free_raw@.len() - fi,
            {
                let f = free_raw[fi];
                if 2 <= f && f <= last && !crate::pager::index::contains_id(&free, f) {
                    let ghost fv = free@;
                    free.push(f);
                    proof {
                        assert forall|i: int, j: int| 0 <= i < j < free@.len()
                            implies free@[i] != free@[j] by {
                            if j == fv.len() as int {
                                assert(!fv.contains(free@[j]));
                                assert(free@[i] == fv[i]);
                            }
                        }
                    }
                }
                fi += 1;
            }
            let mut pager = Pager {
                pages,
                free_pages: free,
                last_used_page: last,
                written: Vec::new(),
                indices: Vec::new(),
                index_spans: Vec::new(),
                index_present: false,
                docs: Ghost(Map::tracked_empty()),
                reserved: Ghost(Set::empty()),
                stale: Ghost(Set::empty()),
                owner: Ghost(Map::tracked_empty()),
            };
            let ghost fsnap = pager.free_pages@;
            proof {
                assert(pager.pages@[0]@.take(4) =~= magic());
                assert(pager.inv_core());
            }
            let loaded = pager.read_document_raw(INDEX_PAGE);
            match loaded {
                Ok(d) => {
                    let mut ci: usize = 0;
                    let n = d.content.len();
                    while ci < n
                        invariant
                            file@.len() >= 4 && file@.take(4) == magic(),
                            n == d.content@.len(),
                            ci <= n,
                            pager.pages_ok(),
                            pager.free_ok(),
                            pager.owner_ok(),
                            pager.docs_ok(),
                            pager.index_doc_ok(),
                            pager.docs@.dom() =~= Set::<usize>::empty(),
                            pager.reserved@ =~= Set::<usize>::empty(),
                            pager.free_pages@ == fsnap,
                            pager.last_used_page == last,
                            !pager.index_present,
                            wf_index(index_view_of(pager.indices@)),
                            forall|f: Seq<char>, v: Seq<u8>, id2: usize|
                                #![trigger in_bucket(index_view_of(pager.indices@), f, v, id2)]
                                in_bucket(index_view_of(pager.indices@), f, v, id2)
                                    ==> pager.written@.contains(id2),
                        decreases n - ci,
                    {
                        let bytes = &d.content[ci].1;
                        let bucket = match codec::decode_bucket(bytes) {
                            Some(b) => b,
                            None => {
                                return Err(PagerError::Decode);
                            },
                        };
                        let key = d.content[ci].0.clone();
                        let mut bi: usize = 0;
                        while bi < bucket.len()
                            invariant
                                bi <= bucket@.len(),
                                pager.pages_ok(),
                                pager.free_ok(),
                                pager.owner_ok(),
                                pager.docs_ok(),
                                pager.index_doc_ok(),
                                pager.docs@.dom() =~= Set::<usize>::empty(),
                                pager.reserved@ =~= Set::<usize>::empty(),
                                pager.free_pages@ == fsnap,
                                pager.last_used_page == last,
                                !pager.index_present,
                                wf_index(index_view_of(pager.indices@)),
                                forall|f: Seq<char>, v: Seq<u8>, id2: usize|
                                    #![trigger in_bucket(index_view_of(pager.indices@), f, v, id2)]
                                    in_bucket(index_view_of(pager.indices@), f, v, id2)
                                        ==> pager.written@.contains(id2),
                            decreases bucket@.len() - bi,
                        {
                            let mut k: usize = 0;
                            let ids_n = bucket[bi].1.len();
                            while k < ids_n
                                invariant
                                    ids_n == bucket@[bi as int].1@.len(),
                                    bi < bucket@.len(),
                                    k <= ids_n,
                                    pager.pages_ok(),
                                    pager.free_ok(),
                                    pager.owner_ok(),
                                    pager.docs_ok(),
                                    pager.index_doc_ok(),
                                    pager.docs@.dom() =~= Set::<usize>::empty(),
                                    pager.reserved@ =~= Set::<usize>::empty(),
                                    pager.free_pages@ == fsnap,
                                    pager.last_used_page == last,
                                    !pager.index_present,
                                    wf_index(index_view_of(pager.indices@)),
                                    forall|f: Seq<char>, v: Seq<u8>, id2: usize|
                                        #![trigger in_bucket(index_view_of(pager.indices@), f, v, id2)]
                                        in_bucket(index_view_of(pager.indices@), f, v, id2)
                                            ==> pager.written@.contains(id2),
                                decreases ids_n - k,
                            {
                                let id2 = bucket[bi].1[k];
                                let ghost wr_old = pager.written@;
                                if !crate::pager::index::contains_id(&pager.written, id2) {
                                    pager.written.push(id2);
                                }
                                proof {
                                    assert(pager.written@.contains(id2)) by {
                                        if !wr_old.contains(id2) {
                                            assert(pager.written@[pager.written@.len() - 1] == id2);
                                        } else {
                                            let j = choose|j: int| 0 <= j < wr_old.len()
                                                && wr_old[j] == id2;
                                            assert(pager.written@[j] == id2);
                                        }
                                    }
                                    assert forall|x: usize| wr_old.contains(x)
                                        implies pager.written@.contains(x) by {
                                        let j = choose|j: int| 0 <= j < wr_old.len()
                                            && wr_old[j] == x;
                                        assert(pager.written@[j] == x);
                                    }
                                }
                                crate::pager::index::insert_index(
                                    &mut pager.indices, key.as_str(), &bucket[bi].0, id2);
                                k += 1;
                            }
                            bi += 1;
                        }
                        ci += 1;
                    }
                },
                Err(e) => {
                    if !matches!(e, PagerError::NotFound) {
                        return Err(e);
                    }
                },
            }
            pager.stale = Ghost(Set::new(|x: usize| pager.written@.contains(x)));
            proof {
                assert(pager.wf());
                assert(hdr_bytes@ == file@.subrange(4, HEADER_SIZE as int));
                assert forall|ps: usize, fp: Seq<usize>, lu: usize|
                    #[trigger] header_enc(ps, fp, lu).is_prefix_of(
                        file@.subrange(4, HEADER_SIZE as int))
                    implies pager.high_water() == (if lu < 1 { 1usize } else { lu })
                        && forall|x: usize| pager.free_list().contains(x)
                            ==> fp.contains(x) && 2 <= x <= pager.high_water() by {
                    assert(header_enc(ps, fp, lu).is_prefix_of(hdr_bytes@));
                    assert(hdr_opt matches Some(h) && h.0 == ps && h.1@ == fp && h.2 == lu);
                    assert(hdr_g.2 == lu && hdr_g.1@ == fp);
                    assert(pager.last_used_page == (if lu < 1 { 1usize } else { lu }));
                    assert forall|x: usize| pager.free_list().contains(x)
                        implies fp.contains(x) && 2 <= x <= pager.high_water() by {
                        let xi = choose|xi: int| 0 <= xi < pager.free_pages@.len()
                            && pager.free_pages@[xi] == x;
                        assert(free_raw@.contains(x));
                    }
                }
            }
            Ok(pager)
        }
    }

    /// Allocate a fresh document: an empty content map tagged with a
    /// newly allocated page number, one no live document holds. The most
    /// recently freed page is preferred; only with an empty free list
    /// does the high-water mark advance.
    pub fn doc(&mut self) -> (r: Result<Document, PagerError>)
        requires
            old(self).wf(),
        ensures
            final(self).wf(),
            final(self).model() == old(self).model(),
            final(self).stale_set() == old(self).stale_set(),
            final(self).index_view() == old(self).index_view(),
            final(self).written_ids() == old(self).written_ids(),
            r matches Ok(d) ==> ({
                let id = d.metadata.id;
                &&& d.content_view() =~= Seq::<(Seq<char>, Seq<u8>)>::empty()
                &&& d.metadata.spans@ =~= Seq::<Span>::empty()
                &&& d.wf()
                &&& 2 <= id
                &&& !old(self).model().dom().contains(id)
                &&& !old(self).reserved_set().contains(id)
                &&& final(self).reserved_set() == old(self).reserved_set().insert(id)
                &&& (old(self).free_list().len() > 0 ==> id == old(self).free_list().last()
                    && final(self).free_list() == old(self).free_list().drop_last()
                    && final(self).high_water() == old(self).high_water())
                &&& (old(self).free_list().len() == 0 ==> id == old(self).high_water() + 1
                    && final(self).free_list() == old(self).free_list()
                    && final(self).high_water() == old(self).high_water() + 1)
                &&& !final(self).free_list().contains(id)
                &&& forall|o: usize, i: int|
                    #![trigger old(self).model()[o].spans[i]]
                    old(self).model().dom().contains(o)
                        && 0 <= i < old(self).model()[o].spans.len()
                    ==> old(self).model()[o].spans[i].0 != id
                &&& final(self).header_persisted()
            }),
            r matches Err(_) ==> final(self).reserved_set() == old(self).reserved_set(),
            r matches Err(e) ==> e == PagerError::TooLarge,
            old(self).free_list().len() > 0
                && header_enc(PAGE_SIZE, old(self).free_list().drop_last(),
                    old(self).high_water()).len() <= HEADER_SIZE - 4
                ==> r matches Ok(_),
            old(self).free_list().len() == 0 && old(self).high_water() < usize::MAX - 1
                ==> r matches Ok(_),
    {
        let p = match self.get_free_page() {
            Ok(p) => p,
            Err(e) => {
                return Err(e);
            },
        };
        proof {
            assert(!self.docs@.dom().contains(p)) by {
                if self.docs@.dom().contains(p) {
                    assert(self.owner@.dom().contains(p));
                }
            }
            assert(!self.reserved@.contains(p)) by {
                if self.reserved@.contains(p) {
                    assert(self.owner@.dom().contains(p));
                }
            }
            assert(!self.free_pages@.contains(p)) by {
                if self.free_pages@.contains(p) {
                    let x = choose|x: int| 0 <= x < self.free_pages@.len()
                        && self.free_pages@[x] == p;
                }
            }
            assert forall|o: usize, i: int|
                #![trigger old(self).docs@[o].spans[i]]
                old(self).docs@.dom().contains(o)
                    && 0 <= i < old(self).docs@[o].spans.len()
                implies old(self).docs@[o].spans[i].0 != p by {
                assert(old(self).owner@.dom().contains(old(self).docs@[o].spans[i].0));
                if old(self).free_pages@.len() > 0 {
                    assert(!self.owner@.dom().contains(p));
                } else {
                    assert(old(self).docs@[o].spans[i].0 <= old(self).last_used_page);
                }
            }
        }
        self.owner = Ghost(self.owner@.insert(p, p));
        self.reserved = Ghost(self.reserved@.insert(p));
        proof {
            assert forall|o: usize| #[trigger] self.docs@.dom().contains(o)
                implies self.doc_ok(o, self.docs@[o]) by {
                assert(old(self).doc_ok(o, old(self).docs@[o]));
            }
        }
        Ok(Document::new(p))
    }

    /// Serialize the whole index into the reserved system document and
    /// persist it through the ordinary document path, reusing the index
    /// document's pages in place.
    fn update_indices(&mut self) -> (r: Result<(), PagerError>)
        requires
            old(self).inv_core(),
        ensures
            final(self).indices == old(self).indices,
            final(self).written_ok(),
            old(self).last_used_page <= final(self).last_used_page,
            forall|x: usize| final(self).written@.contains(x)
                <==> (old(self).written@.contains(x)
                    || (r matches Ok(_) && x == INDEX_PAGE)),
            r matches Ok(_) && old(self).free_pages@.len() == 0
                && old(self).index_spans@.len() == 0
                ==> final(self).free_pages@ =~= Seq::<usize>::empty(),
            r matches Ok(_) ==> ({
                &&& final(self).inv_core()
                &&& final(self).stale == old(self).stale
                &&& final(self).docs@.dom() =~= old(self).docs@.dom().insert(INDEX_PAGE)
                &&& forall|o: usize| #[trigger] old(self).docs@.dom().contains(o)
                        && o != INDEX_PAGE
                    ==> final(self).docs@[o] == old(self).docs@[o]
                &&& final(self).reserved@ == old(self).reserved@.remove(INDEX_PAGE)
            }),
            r matches Err(_) ==> ({
                &&& final(self).inv_core()
                &&& final(self).docs@ == old(self).docs@.remove(INDEX_PAGE)
                &&& final(self).reserved@ == old(self).reserved@.remove(INDEX_PAGE)
                &&& final(self).stale@ == old(self).stale@.insert(INDEX_PAGE)
                &&& final(self).written == old(self).written
            }),
            r matches Err(e) ==> e == PagerError::TooLarge,
            final(self).index_doc_content_ok(),
            old(self).index_present
                && old(self).docs@[INDEX_PAGE].content == index_content_of(old(self).indices@)
                ==> r matches Ok(_),
            !old(self).index_present && old(self).indices@.len() == 0
                && old(self).free_pages@.len() == 0
                && old(self).last_used_page < usize::MAX - 1
                ==> (r matches Ok(_)
                    && final(self).last_used_page == old(self).last_used_page + 1
                    && final(self).free_pages@ =~= Seq::<usize>::empty()
                    && final(self).header_persisted()),
    {
        let mut doc = Document::new(INDEX_PAGE);
        if self.index_present {
            let mut j: usize = 0;
            while j < self.index_spans.len()
                invariant
                    j <= self.index_spans@.len(),
                    doc.metadata.spans@.len() == j,
                    doc.metadata.id == INDEX_PAGE,
                    doc.wf(),
                    doc.content_view() =~= Seq::<(Seq<char>, Seq<u8>)>::empty(),
                    *self == *old(self),
                    forall|x: int| 0 <= x < j
                        ==> #[trigger] doc.metadata.spans@[x] == (Span::Allocated {
                            page: self.index_spans@[x].0,
                            size: self.index_spans@[x].1,
                        }),
                decreases self.index_spans@.len() - j,
            {
                doc.metadata.spans.push(Span::Allocated {
                    page: self.index_spans[j].0,
                    size: self.index_spans[j].1,
                });
                j += 1;
            }
        }
        let ghost doc0 = doc;
        let mut fi: usize = 0;
        proof {
            assert(doc.content_view() =~= index_content_of(self.indices@).take(0));
        }
        while fi < self.indices.len()
            invariant
                old(self).inv_core(),
                fi <= self.indices@.len(),
                doc.wf(),
                doc.metadata == doc0.metadata,
                *self == *old(self),
                doc.content_view() == index_content_of(self.indices@).take(fi as int),
            decreases self.indices@.len() - fi,
        {
            let bytes = codec::encode_bucket(&self.indices[fi].1);
            let key = self.indices[fi].0.clone();
            let ghost cv_old = doc.content_view();
            proof {
                let tgt = index_content_of(self.indices@);
                assert(wf_index(index_view_of(self.indices@)));
                assert forall|x: int| 0 <= x < fi
                    implies (#[trigger] cv_old[x]).0 != key@ by {
                    assert(cv_old[x].0 == tgt.take(fi as int)[x].0);
                    assert(tgt[x].0 == self.indices@[x].0@);
                    assert(index_view_of(self.indices@)[x].0 == self.indices@[x].0@);
                    assert(index_view_of(self.indices@)[fi as int].0
                        != index_view_of(self.indices@)[x].0);
                }
                crate::pager::assoc::lemma_assoc_prefix_miss(cv_old, key@, fi as int);
                assert(crate::pager::document::content_get(cv_old, key@) is None);
            }
            doc.insert(key.as_str(), bytes);
            proof {
                assert(doc.content_view() =~= cv_old.push((key@, bytes@)));
                assert(doc.content_view()
                    =~= index_content_of(self.indices@).take(fi as int + 1));
            }
            fi += 1;
        }
        proof {
            assert(index_content_of(self.indices@).take(self.indices@.len() as int)
                =~= index_content_of(self.indices@));
            assert(doc.content_view() == index_content_of(self.indices@));
        }
        proof {
            if self.index_present {
                assert(self.docs@.dom().contains(INDEX_PAGE));
                assert(spans_match(doc.metadata.spans@, self.docs@[INDEX_PAGE].spans));
            } else {
                assert(!self.docs@.dom().contains(INDEX_PAGE));
                assert(doc.metadata.spans@.len() == 0);
            }
        }
        match self.persist_document(&doc) {
            Ok(_) => {
                proof {
                    if old(self).free_pages@.len() == 0 && old(self).index_spans@.len() == 0 {
                        assert(self.free_pages@ =~= Seq::<usize>::empty());
                    }
                    assert(self.index_present);
                    assert(self.docs@[INDEX_PAGE].content == doc.content_view());
                    assert(self.index_doc_content_ok());
                }
                Ok(())
            },
            Err(e) => {
                proof {
                    assert(!self.index_present);
                }
                Err(e)
            },
        }
    }

    /// Write a document: diff its new content against the persisted
    /// previous version to update the index, re-persist the index
    /// document, then persist the document's own content and metadata.
    ///
    /// The reserved index document cannot be written through this path:
    /// its id belongs to the system and is persisted internally with
    /// every write, so handing it to a caller would let the persisted
    /// index diverge from the in-memory one.
    ///
    /// A successful write installs the document's content map in the
    /// store's model under its id, so a `read_document` of that id
    /// returns exactly the map that was written. Rewriting with content
    /// of unchanged encoded size reuses the same spans; rewriting with
    /// fewer spans appends the trailing pages to the free list.
    pub fn write_document(&mut self, document: Document) -> (r: Result<(), PagerError>)
        requires
            old(self).wf(),
            document.wf(),
            document.metadata.id != INDEX_PAGE,
            (old(self).reserved_set().contains(document.metadata.id)
                && document.metadata.spans@.len() == 0)
            || (old(self).model().dom().contains(document.metadata.id)
                && spans_match(document.metadata.spans@,
                    old(self).model()[document.metadata.id].spans)),
        ensures
            final(self).wf(),
            forall|x: usize| final(self).stale_set().contains(x)
                ==> old(self).stale_set().contains(x) || x == document.metadata.id
                    || x == INDEX_PAGE,
            r matches Ok(_) ==> ({
                let id = document.metadata.id;
                let cs = chunks_of(content_enc(document.content_view()), PAGE_SIZE as int);
                &&& final(self).stale_set() == old(self).stale_set()
                &&& final(self).model().dom()
                    =~= old(self).model().dom().insert(id).insert(INDEX_PAGE)
                &&& final(self).model()[id].content == document.content_view()
                &&& forall|o: usize| #[trigger] old(self).model().dom().contains(o)
                        && o != id && o != INDEX_PAGE
                    ==> final(self).model()[o] == old(self).model()[o]
                &&& !final(self).reserved_set().contains(id)
                &&& final(self).model()[id].spans.len() == cs.len()
                &&& (old(self).model().dom().contains(id)
                    && content_enc(document.content_view()).len()
                        == content_enc(old(self).model()[id].content).len()
                    ==> final(self).model()[id].spans == old(self).model()[id].spans)
                &&& forall|i: int| 0 <= i < document.metadata.spans@.len()
                        && i < final(self).model()[id].spans.len()
                    ==> (#[trigger] final(self).model()[id].spans[i]).0
                        == crate::pager::document::span_page(document.metadata.spans@[i])
                &&& (final(self).model()[id].spans.len() < document.metadata.spans@.len()
                    ==> exists|pre: Seq<usize>|
                        final(self).free_list() == #[trigger] (pre + freed_tail(
                            document.metadata.spans@,
                            final(self).model()[id].spans.len() as int,
                        )))
                &&& forall|i: int| 0 <= i < cs.len()
                    ==> (#[trigger] final(self).model()[id].spans[i]).1 == cs[i].len()
                &&& (!old(self).stale_set().contains(id)
                    ==> forall|f: Seq<char>, v: Seq<u8>|
                        #![trigger in_bucket(final(self).index_view(), f, v, id)]
                        #![trigger content_has(document.content_view(), f, v)]
                        in_bucket(final(self).index_view(), f, v, id)
                            <==> content_has(document.content_view(), f, v))
                &&& forall|f: Seq<char>, v: Seq<u8>, id2: usize| id2 != id
                    ==> (#[trigger] in_bucket(final(self).index_view(), f, v, id2)
                        <==> in_bucket(old(self).index_view(), f, v, id2))
            }),
            r matches Err(e) ==> e == PagerError::TooLarge,
            old(self).model().dom().contains(INDEX_PAGE)
                && old(self).model().dom().contains(document.metadata.id)
                && document.content_view() == old(self).model()[document.metadata.id].content
                ==> r matches Ok(_),
    {
        let id = document.id();
        let prev_doc = match self.read_document(id) {
            Ok(d) => d,
            Err(_) => Document::new(id),
        };
        let ghost prevv = prev_doc.content_view();
        let ghost newv = document.content_view();
        let ghost ix0 = index_view_of(self.indices@);
        let ghost noop = old(self).docs@.dom().contains(INDEX_PAGE)
            && old(self).docs@.dom().contains(id)
            && document.content_view() == old(self).docs@[id].content;
        proof {
            if old(self).docs@.dom().contains(id) {
                assert(prevv == old(self).docs@[id].content);
            }
            if !old(self).stale@.contains(id) {
                if !old(self).docs@.dom().contains(id) {
                    assert(!old(self).written@.contains(id)) by {
                        if old(self).written@.contains(id) {
                            let j = choose|j: int| 0 <= j < old(self).written@.len()
                                && old(self).written@[j] == id;
                            assert(old(self).docs@.dom().contains(old(self).written@[j])
                                || old(self).stale@.contains(old(self).written@[j]));
                        }
                    }
                    assert(prevv =~= Seq::<(Seq<char>, Seq<u8>)>::empty());
                } else {
                    assert(prevv == old(self).docs@[id].content);
                }
                assert(prev_doc.wf());
            }
        }
        let mut k: usize = 0;
        while k < prev_doc.content.len()
            invariant
                old(self).wf(),
                document.wf(),
                id == document.metadata.id,
                id != INDEX_PAGE,
                prevv == prev_doc.content_view(),
                newv == document.content_view(),
                ix0 == index_view_of(old(self).indices@),
                k <= prev_doc.content@.len(),
                self.pages == old(self).pages,
                self.free_pages == old(self).free_pages,
                self.last_used_page == old(self).last_used_page,
                self.written == old(self).written,
                self.index_spans == old(self).index_spans,
                self.index_present == old(self).index_present,
                self.docs == old(self).docs,
                self.reserved == old(self).reserved,
                self.stale == old(self).stale,
                self.owner == old(self).owner,
                wf_index(index_view_of(self.indices@)),
                noop ==> prevv == newv && document.wf(),
                noop ==> self.indices == old(self).indices,
                forall|f: Seq<char>, v: Seq<u8>, id2: usize|
                    #![trigger in_bucket(index_view_of(self.indices@), f, v, id2)]
                    #![trigger in_bucket(ix0, f, v, id2)]
                    in_bucket(index_view_of(self.indices@), f, v, id2)
                        <==> (in_bucket(ix0, f, v, id2)
                            && !(id2 == id && diff_before(prevv, newv, k as int, f, v))),
            decreases prev_doc.content@.len() - k,
        {
            let is_kept: bool = match document.get(prev_doc.content[k].0.as_str()) {
                Some(nv) => crate::pager::index::bytes_eq(nv, &prev_doc.content[k].1),
                None => false,
            };
            proof {
                assert(prevv[k as int] == (prev_doc.content@[k as int].0@,
                    prev_doc.content@[k as int].1@));
                assert(is_kept == (crate::pager::document::content_get(newv, prevv[k as int].0)
                    == Some(prevv[k as int].1)));
                if noop {
                    crate::pager::assoc::lemma_assoc_get_at(newv, k as int);
                    assert(is_kept);
                }
            }
            let ghost ixk = index_view_of(self.indices@);
            if !is_kept {
                crate::pager::index::remove_index(
                    &mut self.indices,
                    prev_doc.content[k].0.as_str(),
                    &prev_doc.content[k].1,
                    id,
                );
            }
            proof {
                assert forall|f: Seq<char>, v: Seq<u8>, id2: usize|
                    in_bucket(index_view_of(self.indices@), f, v, id2)
                        <==> (in_bucket(ix0, f, v, id2)
                            && !(id2 == id && diff_before(prevv, newv, k as int + 1, f, v))) by {
                    lemma_diff_before_step(prevv, newv, k as int, f, v);
                    if is_kept {
                        assert(in_bucket(index_view_of(self.indices@), f, v, id2)
                            == in_bucket(ixk, f, v, id2));
                    }
                }
            }
            k += 1;
        }
        let ghost ix1 = index_view_of(self.indices@);
        let mut k2: usize = 0;
        while k2 < document.content.len()
            invariant
                old(self).wf(),
                document.wf(),
                id == document.metadata.id,
                id != INDEX_PAGE,
                prevv == prev_doc.content_view(),
                newv == document.content_view(),
                ix0 == index_view_of(old(self).indices@),
                k2 <= document.content@.len(),
                self.pages == old(self).pages,
                self.free_pages == old(self).free_pages,
                self.last_used_page == old(self).last_used_page,
                self.written == old(self).written,
                self.index_spans == old(self).index_spans,
                self.index_present == old(self).index_present,
                self.docs == old(self).docs,
                self.reserved == old(self).reserved,
                self.stale == old(self).stale,
                self.owner == old(self).owner,
                wf_index(index_view_of(self.indices@)),
                forall|f: Seq<char>, v: Seq<u8>, id2: usize|
                    #![trigger in_bucket(index_view_of(self.indices@), f, v, id2)]
                    #![trigger in_bucket(ix1, f, v, id2)]
                    in_bucket(index_view_of(self.indices@), f, v, id2)
                        <==> (in_bucket(ix1, f, v, id2)
                            || (id2 == id && diff_before(newv, prevv, k2 as int, f, v))),
                noop ==> prevv == newv && document.wf(),
                noop ==> self.indices == old(self).indices,
                forall|f: Seq<char>, v: Seq<u8>, id2: usize|
                    #![trigger in_bucket(ix1, f, v, id2)]
                    #![trigger in_bucket(ix0, f, v, id2)]
                    in_bucket(ix1, f, v, id2)
                        <==> (in_bucket(ix0, f, v, id2)
                            && !(id2 == id
                                && diff_before(prevv, newv, prevv.len() as int, f, v))),
            decreases document.content@.len() - k2,
        {
            let is_old: bool = match prev_doc.get(document.content[k2].0.as_str()) {
                Some(pv) => crate::pager::index::bytes_eq(pv, &document.content[k2].1),
                None => false,
            };
            proof {
                assert(newv[k2 as int] == (document.content@[k2 as int].0@,
                    document.content@[k2 as int].1@));
                assert(is_old == (crate::pager::document::content_get(prevv, newv[k2 as int].0)
                    == Some(newv[k2 as int].1)));
                if noop {
                    crate::pager::assoc::lemma_assoc_get_at(prevv, k2 as int);
                    assert(is_old);
                }
            }
            let ghost ixk = index_view_of(self.indices@);
            if !is_old {
                crate::pager::index::insert_index(
                    &mut self.indices,
                    document.content[k2].0.as_str(),
                    &document.content[k2].1,
                    id,
                );
            }
            proof {
                assert forall|f: Seq<char>, v: Seq<u8>, id2: usize|
                    in_bucket(index_view_of(self.indices@), f, v, id2)
                        <==> (in_bucket(ix1, f, v, id2)
                            || (id2 == id && diff_before(newv, prevv, k2 as int + 1, f, v))) by {
                    lemma_diff_before_step(newv, prevv, k2 as int, f, v);
                    if is_old {
                        assert(in_bucket(index_view_of(self.indices@), f, v, id2)
                            == in_bucket(ixk, f, v, id2));
                    }
                }
            }
            k2 += 1;
        }
        let ghost ix2 = index_view_of(self.indices@);
        proof {
            assert(self.inv_core());
        }
        match self.update_indices() {
            Ok(()) => {},
            Err(e) => {
                proof {
                    if noop {
                        assert(old(self).index_doc_ok());
                        assert(false);
                    }
                }
                let ghost pre_mark = *self;
                self.mark_unmodeled(id);
                proof {
                    lemma_inv_core_after_drop(pre_mark, *self, id);
                    lemma_write_index_ok(*old(self), *self, prevv, newv, ix0, ix1, ix2, id);
                }
                return Err(e);
            },
        }
        let ghost mid2 = *self;
        proof {
            if old(self).docs@.dom().contains(id) {
                assert(self.docs@.dom().contains(id));
                assert(self.docs@[id] == old(self).docs@[id]);
            }
            if old(self).reserved@.contains(id) {
                assert(self.reserved@.contains(id));
            }
        }
        match self.persist_document(&document) {
            Ok(_) => {},
            Err(e) => {
                proof {
                    if noop {
                        assert(mid2.docs@.dom().contains(id));
                        assert(mid2.docs@[id] == old(self).docs@[id]);
                        assert(false);
                    }
                    lemma_write_index_ok(*old(self), *self, prevv, newv, ix0, ix1, ix2, id);
                }
                return Err(e);
            },
        }
        proof {
            lemma_write_index_ok(*old(self), *self, prevv, newv, ix0, ix1, ix2, id);
            assert(self.model().dom() =~= old(self).model().dom().insert(id).insert(INDEX_PAGE));
            assert forall|o: usize| #[trigger] old(self).docs@.dom().contains(o)
                    && o != id && o != INDEX_PAGE
                implies self.docs@[o] == old(self).docs@[o] by {
                assert(mid2.docs@.dom().contains(o));
                assert(mid2.docs@[o] == old(self).docs@[o]);
                assert(self.docs@[o] == mid2.docs@[o]);
            }
            assert(index_view_of(self.indices@) == ix2);
            assert(self.docs@.dom().contains(id));
            assert(self.doc_ok(id, self.docs@[id]));
            assert forall|i: int|
                0 <= i < chunks_of(content_enc(newv), PAGE_SIZE as int).len()
                implies (#[trigger] self.docs@[id].spans[i]).1
                    == chunks_of(content_enc(newv), PAGE_SIZE as int)[i].len() by {
            }
            if old(self).docs@.dom().contains(id)
                && content_enc(newv).len() == content_enc(old(self).docs@[id].content).len() {
                crate::pager::document::lemma_chunks_same_len(
                    content_enc(newv),
                    content_enc(old(self).docs@[id].content),
                    PAGE_SIZE as int,
                );
                assert(old(self).docs@.dom().contains(id));
                assert(old(self).doc_ok(id, old(self).docs@[id]));
                assert(self.docs@.dom().contains(id));
                assert(self.doc_ok(id, self.docs@[id]));
                assert(self.docs@[id].spans =~= old(self).docs@[id].spans) by {
                    let ns = self.docs@[id].spans;
                    let os = old(self).docs@[id].spans;
                    assert(ns.len() == os.len());
                    assert forall|i: int| 0 <= i < ns.len() implies ns[i] == os[i] by {
                        assert(ns[i].0 == crate::pager::document::span_page(
                            document.metadata.spans@[i]));
                        assert(document.metadata.spans@[i] == (Span::Allocated {
                            page: os[i].0, size: os[i].1 }));
                    }
                }
            }
            if self.docs@[id].spans.len() < document.metadata.spans@.len() {
                let n_new = self.docs@[id].spans.len();
                let freed = freed_tail(document.metadata.spans@, n_new as int);
                assert(freed =~= Seq::new((document.metadata.spans@.len() - n_new) as nat,
                    |j: int| crate::pager::document::span_page(
                        document.metadata.spans@[n_new + j])));
                assert(self.free_pages@ == mid2.free_pages@ + freed);
                assert(exists|pre: Seq<usize>|
                    self.free_pages@ == #[trigger] (pre + freed)) by {
                    assert(self.free_pages@ == mid2.free_pages@ + freed);
                }
            }
        }
        Ok(())
    }

    /// What a successful query returns, given the queried (field, value)
    /// pairs `qv`: every returned document matches some queried pair's
    /// bucket and is materialized from its persisted state; every id a
    /// queried bucket lists is returned; and, for ids outside the stale
    /// set, a document is returned exactly when its current content
    /// holds one of the queried fields with the queried value.
    pub open spec fn query_post(
        &self,
        qv: Seq<(Seq<char>, Seq<char>)>,
        res: Seq<Document>,
    ) -> bool {
        &&& forall|k: int| #![trigger res[k]] 0 <= k < res.len()
            ==> matches_query(self.index_view(), qv, res[k].metadata.id)
        &&& forall|k: int| #![trigger res[k]] 0 <= k < res.len()
                && self.model().dom().contains(res[k].metadata.id)
            ==> res[k].content_view() == self.model()[res[k].metadata.id].content
                && res[k].wf()
        &&& forall|id: usize, j: int| 0 <= j < qv.len()
                && #[trigger] in_bucket(self.index_view(), qv[j].0, str_enc(qv[j].1), id)
            ==> exists|k: int| 0 <= k < res.len()
                && (#[trigger] res[k]).metadata.id == id
        &&& forall|id: usize| !self.stale_set().contains(id)
            ==> ((exists|k: int| 0 <= k < res.len()
                    && (#[trigger] res[k]).metadata.id == id)
                <==> (self.model().dom().contains(id) && id != INDEX_PAGE
                    && exists|j: int| 0 <= j < qv.len()
                        && #[trigger] content_has(self.model()[id].content,
                            qv[j].0, str_enc(qv[j].1))))
        &&& forall|k: int, k2: int| 0 <= k < k2 < res.len()
            ==> (#[trigger] res[k]).metadata.id != (#[trigger] res[k2]).metadata.id
    }

    /// Every id listed in the buckets of the queried (field, value)
    /// pairs is a live document of this session: the condition under
    /// which a query is guaranteed to succeed.
    pub open spec fn query_covered(&self, qv: Seq<(Seq<char>, Seq<char>)>) -> bool {
        forall|j: int, id2: usize| 0 <= j < qv.len()
            && #[trigger] in_bucket(self.index_view(), qv[j].0, str_enc(qv[j].1), id2)
            ==> self.model().dom().contains(id2)
    }

    /// Evaluate equality predicates against the index: a document
    /// qualifies when any one queried field's bucket for the encoded
    /// value lists it (disjunctive combining across the queried
    /// fields). Matches are accumulated as one
    /// result set — each qualifying document is materialized once, even
    /// when several queried fields list it.
    #[verifier::rlimit(60)]
    pub fn query(&self, q: Query) -> (r: Result<Vec<Document>, PagerError>)
        requires
            self.wf(),
        ensures
            r matches Ok(res) ==> self.query_post(crate::query::query_view(q.0@), res@),
            r matches Err(e) ==> e == PagerError::Decode || e == PagerError::NotFound,
            self.query_covered(crate::query::query_view(q.0@)) ==> r matches Ok(_),
    {
        let ghost qv = crate::query::query_view(q.0@);
        let ghost ixv = index_view_of(self.indices@);
        let ghost all_live = self.query_covered(qv);
        let mut seen: Vec<usize> = Vec::new();
        let mut results: Vec<Document> = Vec::new();
        let mut qi: usize = 0;
        while qi < q.0.len()
            invariant
                self.wf(),
                qv == crate::query::query_view(q.0@),
                ixv == index_view_of(self.indices@),
                qi <= q.0@.len(),
                qv.len() == q.0@.len(),
                forall|k: int| #![trigger results@[k]] 0 <= k < results@.len()
                    ==> matches_query(ixv, qv, results@[k].metadata.id),
                forall|k: int| 0 <= k < results@.len()
                        && self.docs@.dom().contains((#[trigger] results@[k]).metadata.id)
                    ==> results@[k].content_view()
                        == self.docs@[results@[k].metadata.id].content
                        && results@[k].wf(),
                forall|id: usize, j: int| 0 <= j < qi
                        && #[trigger] in_bucket(ixv, qv[j].0, str_enc(qv[j].1), id)
                    ==> exists|k: int| 0 <= k < results@.len()
                        && (#[trigger] results@[k]).metadata.id == id,
                forall|x: usize| #[trigger] seen@.contains(x)
                    <==> exists|k: int| 0 <= k < results@.len()
                        && (#[trigger] results@[k]).metadata.id == x,
                forall|k: int, k2: int| 0 <= k < k2 < results@.len()
                    ==> (#[trigger] results@[k]).metadata.id
                        != (#[trigger] results@[k2]).metadata.id,
                all_live == self.query_covered(qv),
            decreases q.0@.len() - qi,
        {
            let val = match &q.0[qi].1 {
                Isolator::Eq(s) => s,
            };
            proof {
                assert(qv[qi as int] == (q.0@[qi as int].0@,
                    crate::query::iso_str(q.0@[qi as int].1)));
            }
            let enc = codec::encode_str(val);
            let ids = crate::pager::index::lookup_ids(&self.indices, &q.0[qi].0, &enc);
            proof {
                assert(ids@ == crate::pager::index::bucket_ids(ixv, qv[qi as int].0,
                    str_enc(qv[qi as int].1)));
            }
            let mut t: usize = 0;
            while t < ids.len()
                invariant
                    self.wf(),
                    qv == crate::query::query_view(q.0@),
                    ixv == index_view_of(self.indices@),
                    qi < q.0@.len(),
                    qv.len() == q.0@.len(),
                    t <= ids@.len(),
                    ids@ == crate::pager::index::bucket_ids(ixv, qv[qi as int].0,
                        str_enc(qv[qi as int].1)),
                    forall|k: int| #![trigger results@[k]] 0 <= k < results@.len()
                        ==> matches_query(ixv, qv, results@[k].metadata.id),
                    forall|k: int| 0 <= k < results@.len()
                            && self.docs@.dom().contains((#[trigger] results@[k]).metadata.id)
                        ==> results@[k].content_view()
                            == self.docs@[results@[k].metadata.id].content
                            && results@[k].wf(),
                    forall|id: usize, j: int| 0 <= j < qi
                            && #[trigger] in_bucket(ixv, qv[j].0, str_enc(qv[j].1), id)
                        ==> exists|k: int| 0 <= k < results@.len()
                            && (#[trigger] results@[k]).metadata.id == id,
                    forall|x: int| #![trigger ids@[x]] 0 <= x < t
                        ==> exists|k: int| 0 <= k < results@.len()
                            && (#[trigger] results@[k]).metadata.id == ids@[x],
                    forall|x: usize| #[trigger] seen@.contains(x)
                        <==> exists|k: int| 0 <= k < results@.len()
                            && (#[trigger] results@[k]).metadata.id == x,
                    forall|k: int, k2: int| 0 <= k < k2 < results@.len()
                        ==> (#[trigger] results@[k]).metadata.id
                            != (#[trigger] results@[k2]).metadata.id,
                    all_live == self.query_covered(qv),
                decreases ids@.len() - t,
            {
                proof {
                    assert(ids@.contains(ids@[t as int]));
                    assert(in_bucket(ixv, qv[qi as int].0, str_enc(qv[qi as int].1),
                        ids@[t as int]));
                }
                if !crate::pager::index::contains_id(&seen, ids[t]) {
                    let d = match self.read_document(ids[t]) {
                        Ok(d) => d,
                        Err(e) => {
                            proof {
                                if all_live {
                                    assert(in_bucket(self.index_view(), qv[qi as int].0,
                                        str_enc(qv[qi as int].1), ids@[t as int]));
                                    assert(self.model().dom().contains(ids@[t as int]));
                                    assert(false);
                                }
                            }
                            return Err(e);
                        },
                    };
                    let ghost res_old = results@;
                    let ghost seen_old = seen@;
                    seen.push(ids[t]);
                    results.push(d);
                    proof {
                        assert(results@[res_old.len() as int].metadata.id == ids@[t as int]);
                        assert(seen@ == seen_old.push(ids@[t as int]));
                        assert forall|x: usize| seen@.contains(x)
                            implies exists|k: int| 0 <= k < results@.len()
                                && (#[trigger] results@[k]).metadata.id == x by {
                            let xi = choose|xi: int| 0 <= xi < seen@.len() && seen@[xi] == x;
                            if xi < seen_old.len() {
                                assert(seen_old.contains(x));
                                let k = choose|k: int| 0 <= k < res_old.len()
                                    && (#[trigger] res_old[k]).metadata.id == x;
                                assert(results@[k].metadata.id == x);
                            } else {
                                assert(results@[res_old.len() as int].metadata.id == x);
                            }
                        }
                        assert forall|x: usize|
                            (exists|k: int| 0 <= k < results@.len()
                                && (#[trigger] results@[k]).metadata.id == x)
                            implies seen@.contains(x) by {
                            let k = choose|k: int| 0 <= k < results@.len()
                                && (#[trigger] results@[k]).metadata.id == x;
                            if k < res_old.len() {
                                assert(seen_old.contains(x));
                                let xi = choose|xi: int| 0 <= xi < seen_old.len()
                                    && seen_old[xi] == x;
                                assert(seen@[xi] == x);
                            } else {
                                assert(seen@[seen_old.len() as int] == x);
                            }
                        }
                        assert forall|k: int, k2: int| 0 <= k < k2 < results@.len()
                            implies (#[trigger] results@[k]).metadata.id
                                != (#[trigger] results@[k2]).metadata.id by {
                            if k2 == res_old.len() as int {
                                if results@[k].metadata.id == ids@[t as int] {
                                    assert(res_old[k].metadata.id == ids@[t as int]);
                                    assert(seen_old.contains(ids@[t as int]));
                                    assert(false);
                                }
                            }
                        }
                        assert forall|x: int| #![trigger ids@[x]] 0 <= x < t + 1
                            implies exists|k: int| 0 <= k < results@.len()
                                && (#[trigger] results@[k]).metadata.id == ids@[x] by {
                            if x < t {
                                let k = choose|k: int| 0 <= k < res_old.len()
                                    && (#[trigger] res_old[k]).metadata.id == ids@[x];
                                assert(results@[k].metadata.id == ids@[x]);
                            } else {
                                assert(results@[res_old.len() as int].metadata.id == ids@[x]);
                            }
                        }
                        assert forall|id2: usize, j: int| 0 <= j < qi
                                && #[trigger] in_bucket(ixv, qv[j].0, str_enc(qv[j].1), id2)
                            implies exists|k: int| 0 <= k < results@.len()
                                && (#[trigger] results@[k]).metadata.id == id2 by {
                            let k = choose|k: int| 0 <= k < res_old.len()
                                && (#[trigger] res_old[k]).metadata.id == id2;
                            assert(results@[k].metadata.id == id2);
                        }
                        assert forall|k: int| #![trigger results@[k]] 0 <= k < results@.len()
                            implies matches_query(ixv, qv, results@[k].metadata.id) by {
                            if k < res_old.len() {
                                assert(results@[k] == res_old[k]);
                                assert(matches_query(ixv, qv, res_old[k].metadata.id));
                            } else {
                                assert(in_bucket(ixv, qv[qi as int].0,
                                    str_enc(qv[qi as int].1), results@[k].metadata.id));
                                assert(matches_query(ixv, qv, results@[k].metadata.id));
                            }
                        }
                    }
                } else {
                    proof {
                        assert(seen@.contains(ids@[t as int]));
                        assert forall|x: int| #![trigger ids@[x]] 0 <= x < t + 1
                            implies exists|k: int| 0 <= k < results@.len()
                                && (#[trigger] results@[k]).metadata.id == ids@[x] by {
                        }
                    }
                }
                t += 1;
            }
            proof {
                assert forall|id2: usize, j: int| 0 <= j < qi + 1
                        && #[trigger] in_bucket(ixv, qv[j].0, str_enc(qv[j].1), id2)
                    implies exists|k: int| 0 <= k < results@.len()
                        && (#[trigger] results@[k]).metadata.id == id2 by {
                    if j == qi as int {
                        let ids_full = crate::pager::index::bucket_ids(ixv, qv[j].0,
                            str_enc(qv[j].1));
                        assert(ids_full.contains(id2));
                        let x = choose|x: int| 0 <= x < ids_full.len() && ids_full[x] == id2;
                    }
                }
            }
            qi += 1;
        }
        proof {
            assert forall|id: usize| !self.stale@.contains(id)
                implies ((exists|k: int| 0 <= k < results@.len()
                        && (#[trigger] results@[k]).metadata.id == id)
                    <==> (self.docs@.dom().contains(id) && id != INDEX_PAGE
                        && exists|j: int| 0 <= j < qv.len()
                            && #[trigger] content_has(self.docs@[id].content,
                                qv[j].0, str_enc(qv[j].1)))) by {
                if exists|k: int| 0 <= k < results@.len()
                    && (#[trigger] results@[k]).metadata.id == id {
                    let k = choose|k: int| 0 <= k < results@.len()
                        && (#[trigger] results@[k]).metadata.id == id;
                    assert(matches_query(ixv, qv, id));
                    let j = choose|j: int| #![trigger qv[j]] 0 <= j < qv.len()
                        && in_bucket(ixv, qv[j].0, str_enc(qv[j].1), id);
                    assert(self.docs@.dom().contains(id) && id != INDEX_PAGE
                        && content_has(self.docs@[id].content, qv[j].0, str_enc(qv[j].1)));
                }
                if self.docs@.dom().contains(id) && id != INDEX_PAGE
                    && exists|j: int| 0 <= j < qv.len()
                        && #[trigger] content_has(self.docs@[id].content,
                            qv[j].0, str_enc(qv[j].1)) {
                    let j = choose|j: int| 0 <= j < qv.len()
                        && #[trigger] content_has(self.docs@[id].content,
                            qv[j].0, str_enc(qv[j].1));
                    assert(in_bucket(ixv, qv[j].0, str_enc(qv[j].1), id));
                }
            }

            assert(forall|k: int, k2: int| 0 <= k < k2 < results@.len()
                ==> (#[trigger] results@[k]).metadata.id
                    != (#[trigger] results@[k2]).metadata.id);
            assert(self.query_post(qv, results@));
        }
        Ok(results)
    }

    /// The whole page image as one byte string: page `p` occupies bytes
    /// `p * PAGE_SIZE` up to `(p + 1) * PAGE_SIZE`. This is what an
    /// embedding program saves to disk and hands back to `new`.
    pub fn image(&self) -> (r: Vec<u8>)
        requires
            self.wf(),
        ensures
            r@ == self.image_view(),
            r@.len() >= 4,
            r@.take(4) == magic(),
    {
        let ghost pv = self.pages@.map_values(|pg: Vec<u8>| pg@);
        let mut r: Vec<u8> = Vec::new();
        let mut p: usize = 0;
        proof {
            assert(r@ =~= pv.take(0).flatten());
        }
        while p < self.pages.len()
            invariant
                self.wf(),
                pv == self.pages@.map_values(|pg: Vec<u8>| pg@),
                p <= self.pages@.len(),
                r@ == pv.take(p as int).flatten(),
                p >= 1 ==> r@.len() >= PAGE_SIZE && r@.take(4) == magic(),
            decreases self.pages@.len() - p,
        {
            let ghost r_old = r@;
            append_bytes(&mut r, &self.pages[p]);
            proof {
                assert(pv[p as int] == self.pages@[p as int]@);
                assert(pv.take(p as int + 1) =~= pv.take(p as int).push(pv[p as int]));
                pv.take(p as int).lemma_flatten_push(pv[p as int]);
                if p == 0 {
                    assert(r_old.len() == 0);
                    assert(r@ =~= self.pages@[0]@);
                    assert(r@.take(4) =~= self.pages@[0]@.take(4));
                } else {
                    assert(r@.take(4) =~= r_old.take(4));
                }
            }
            p += 1;
        }
        proof {
            assert(pv.take(self.pages@.len() as int) =~= pv);
        }
        r
    }

    /// Page ownership is unique: two distinct live documents never share
    /// a page, neither their metadata pages nor any content span page,
    /// and no page of a live document sits in the free list.
    pub proof fn lemma_page_ownership_unique(&self, id1: usize, id2: usize)
        requires
            self.wf(),
            self.model().dom().contains(id1),
            self.model().dom().contains(id2),
            id1 != id2,
        ensures
            forall|i: int, j: int|
                0 <= i < self.model()[id1].spans.len()
                && 0 <= j < self.model()[id2].spans.len()
                ==> (#[trigger] self.model()[id1].spans[i]).0
                    != (#[trigger] self.model()[id2].spans[j]).0,
            forall|i: int| 0 <= i < self.model()[id1].spans.len()
                ==> (#[trigger] self.model()[id1].spans[i]).0 != id2,
            forall|i: int| 0 <= i < self.model()[id1].spans.len()
                ==> !self.free_list().contains(self.model()[id1].spans[i].0),
            !self.free_list().contains(id1),
    {
        let ow = self.owner@;
        assert forall|i: int, j: int|
            0 <= i < self.model()[id1].spans.len()
            && 0 <= j < self.model()[id2].spans.len()
            implies (#[trigger] self.model()[id1].spans[i]).0
                != (#[trigger] self.model()[id2].spans[j]).0 by {
            assert(ow[self.docs@[id1].spans[i].0] == id1);
            assert(ow[self.docs@[id2].spans[j].0] == id2);
        }
        assert forall|i: int| 0 <= i < self.model()[id1].spans.len()
            implies (#[trigger] self.model()[id1].spans[i]).0 != id2 by {
            assert(ow[self.docs@[id1].spans[i].0] == id1);
            assert(ow[id2] == id2);
        }
        assert forall|i: int| 0 <= i < self.model()[id1].spans.len()
            implies !self.free_list().contains(self.model()[id1].spans[i].0) by {
            if self.free_list().contains(self.docs@[id1].spans[i].0) {
                let x = choose|x: int| 0 <= x < self.free_pages@.len()
                    && self.free_pages@[x] == self.docs@[id1].spans[i].0;
                assert(!ow.dom().contains(self.free_pages@[x]));
            }
        }
        if self.free_list().contains(id1) {
            let x = choose|x: int| 0 <= x < self.free_pages@.len()
                && self.free_pages@[x] == id1;
            assert(!ow.dom().contains(self.free_pages@[x]));
            assert(false);
        }
    }

    /// A live document's pages are its own: its metadata page and span
    /// pages sit in no other structure, in particular not in the free
    /// list, whether or not any other document exists.
    pub proof fn lemma_live_pages_not_free(&self, id: usize)
        requires
            self.wf(),
            self.model().dom().contains(id),
        ensures
            !self.free_list().contains(id),
            forall|i: int| 0 <= i < self.model()[id].spans.len()
                ==> !self.free_list().contains((#[trigger] self.model()[id].spans[i]).0),
    {
        let ow = self.owner@;
        if self.free_list().contains(id) {
            let x = choose|x: int| 0 <= x < self.free_pages@.len()
                && self.free_pages@[x] == id;
            assert(!ow.dom().contains(self.free_pages@[x]));
        }
        assert forall|i: int| 0 <= i < self.model()[id].spans.len()
            implies !self.free_list().contains((#[trigger] self.model()[id].spans[i]).0) by {
            assert(ow.dom().contains(self.docs@[id].spans[i].0));
            if self.free_list().contains(self.docs@[id].spans[i].0) {
                let x = choose|x: int| 0 <= x < self.free_pages@.len()
                    && self.free_pages@[x] == self.docs@[id].spans[i].0;
                assert(!ow.dom().contains(self.free_pages@[x]));
            }
        }
    }

    /// A live document's spans cover its encoded content exactly: the
    /// span sizes sum to the length of the content's encoding.
    pub proof fn lemma_spans_cover_content(&self, id: usize)
        requires
            self.wf(),
            self.model().dom().contains(id),
        ensures
            sizes_total(self.model()[id].spans)
                == content_enc(self.model()[id].content).len(),
    {
        let m = self.docs@[id];
        assert(self.doc_ok(id, m));
        let buf = content_enc(m.content);
        let cs = chunks_of(buf, PAGE_SIZE as int);
        crate::pager::document::lemma_chunks_lens_total(buf, PAGE_SIZE as int);
        lemma_sizes_match_chunks(m.spans, cs);
    }

    /// The persisted system index document is the in-memory index: its
    /// content map holds each indexed field with the encoding of that
    /// field's buckets, whenever the index document is live.
    pub proof fn lemma_index_doc_persisted(&self)
        requires
            self.wf(),
            self.model().dom().contains(INDEX_PAGE),
        ensures
            self.model()[INDEX_PAGE].content == index_as_content(self.index_view()),
    {
        assert(self.index_present);
        assert(self.docs@[INDEX_PAGE].content == index_content_of(self.indices@));
        assert(index_content_of(self.indices@) =~~= index_as_content(self.index_view()));
    }

    /// The page image as a mathematical byte string.
    pub closed spec fn image_view(&self) -> Seq<u8> {
        self.pages@.map_values(|pg: Vec<u8>| pg@).flatten()
    }

    /// The ids that can currently be read back.
    pub closed spec fn written_ids(&self) -> Seq<usize> {
        self.written@
    }

    /// Reconstruct a document from the image: decode its metadata page,
    /// read each span's bytes in order, and decode the concatenation.
    fn read_document_raw(&self, id: usize) -> (r: Result<Document, PagerError>)
        requires
            self.inv_core(),
        ensures
            self.docs@.dom().contains(id) ==> (r matches Ok(d)
                && d.content_view() == self.docs@[id].content
                && d.metadata.id == id
                && spans_match(d.metadata.spans@, self.docs@[id].spans)
                && d.wf()),
            r matches Ok(d) ==> d.metadata.id == id,
            r matches Err(e) ==> e == PagerError::Decode || e == PagerError::NotFound,
    {
        let ghost modeled = self.docs@.dom().contains(id);
        let ghost m = if modeled { self.docs@[id] } else { arbitrary() };
        proof {
            if modeled {
                assert(self.doc_ok(id, m));
            }
        }
        if id >= self.pages.len() {
            return Err(PagerError::NotFound);
        }
        let meta = match codec::decode_meta(&self.pages[id]) {
            Some(t) => t,
            None => {
                proof {
                    if modeled {
                        assert(meta_enc(id, m.spans).is_prefix_of(self.pages@[id as int]@));
                        assert(false);
                    }
                }
                return Err(PagerError::Decode);
            },
        };
        proof {
            if modeled {
                assert(meta_enc(id, m.spans).is_prefix_of(self.pages@[id as int]@));
                assert(meta.0 == id && meta.1@ == m.spans);
            }
        }
        if meta.0 != id {
            return Err(PagerError::NotFound);
        }
        let pairs = meta.1;
        let ghost csm = chunks_of(content_enc(m.content), PAGE_SIZE as int);
        let mut acc: Vec<u8> = Vec::new();
        let mut k: usize = 0;
        proof {
            assert(acc@ =~= csm.take(0).flatten());
        }
        while k < pairs.len()
            invariant
                self.inv_core(),
                k <= pairs@.len(),
                modeled == self.docs@.dom().contains(id),
                modeled ==> m == self.docs@[id] && self.doc_ok(id, m)
                    && pairs@ == m.spans
                    && csm == chunks_of(content_enc(m.content), PAGE_SIZE as int)
                    && acc@ == csm.take(k as int).flatten(),
            decreases pairs@.len() - k,
        {
            let p = pairs[k].0;
            let sz = pairs[k].1;
            proof {
                if modeled {
                    assert(m.spans[k as int].0 == p && m.spans[k as int].1 == sz);
                    assert(2 <= p <= self.last_used_page);
                    assert(sz == csm[k as int].len());
                    assert(csm[k as int].len() <= PAGE_SIZE) by {
                        crate::pager::document::lemma_chunks_len(
                            content_enc(m.content), PAGE_SIZE as int);
                    }
                }
            }
            if p >= self.pages.len() || sz > PAGE_SIZE {
                return Err(PagerError::Decode);
            }
            let chunk = crate::pager::document::subvec(&self.pages[p], 0, sz);
            let ghost acc_old = acc@;
            append_bytes(&mut acc, &chunk);
            proof {
                if modeled {
                    assert(chunk@ == self.pages@[p as int]@.take(sz as int));
                    assert(chunk@ =~= csm[k as int]);
                    assert(csm.take(k as int + 1) =~= csm.take(k as int).push(csm[k as int]));
                    csm.take(k as int).lemma_flatten_push(csm[k as int]);
                    assert(acc@ == csm.take(k as int + 1).flatten());
                }
            }
            k += 1;
        }
        proof {
            if modeled {
                assert(csm.take(pairs@.len() as int) =~= csm);
                crate::pager::document::lemma_chunks_flatten(
                    content_enc(m.content), PAGE_SIZE as int);
                assert(acc@ == content_enc(m.content));
            }
        }
        let content = match codec::decode_content(&acc) {
            Some(c) => c,
            None => {
                proof {
                    if modeled {
                        assert(content_enc(m.content).is_prefix_of(acc@));
                        assert(false);
                    }
                }
                return Err(PagerError::Decode);
            },
        };
        proof {
            if modeled {
                assert(content_enc(m.content).is_prefix_of(acc@));
                assert(crate::pager::document::content_view_of(content@) == m.content);
            }
        }
        let mut spans: Vec<Span> = Vec::new();
        let mut j: usize = 0;
        while j < pairs.len()
            invariant
                j <= pairs@.len(),
                spans@.len() == j,
                forall|x: int| 0 <= x < j ==> #[trigger] spans@[x] == (Span::Allocated {
                    page: pairs@[x].0,
                    size: pairs@[x].1,
                }),
            decreases pairs@.len() - j,
        {
            spans.push(Span::Allocated { page: pairs[j].0, size: pairs[j].1 });
            j += 1;
        }
        Ok(Document {
            content,
            metadata: crate::pager::document::Metadata { id, spans },
        })
    }

    /// Read the document written under `id`: for a document written in
    /// this session it reconstructs exactly the content map most
    /// recently written. Ids never written are reported as `NotFound`
    /// rather than decoded from undefined bytes.
    pub fn read_document(&self, id: usize) -> (r: Result<Document, PagerError>)
        requires
            self.wf(),
        ensures
            self.model().dom().contains(id) ==> (r matches Ok(d)
                && d.content_view() == self.model()[id].content
                && d.metadata.id == id
                && spans_match(d.metadata.spans@, self.model()[id].spans)
                && d.wf()),
            !self.written_ids().contains(id) ==> r == Err::<Document, PagerError>(PagerError::NotFound),
            r matches Ok(d) ==> d.metadata.id == id,
            r matches Err(e) ==> e == PagerError::Decode || e == PagerError::NotFound,
    {
        if !crate::pager::index::contains_id(&self.written, id) {
            return Err(PagerError::NotFound);
        }
        self.read_document_raw(id)
    }

    /// Persist one document: cut its encoded content into page-sized
    /// chunks, free the pages of any spans beyond the new span count,
    /// allocate pages for chunks past the existing spans, write every
    /// chunk to its page, and finally write the metadata page. Returns
    /// the fully `Allocated` span list.
    ///
    /// On failure the document leaves the model: its pages may be in an
    /// intermediate state (there is no write-ahead log).
    fn persist_document(&mut self, doc: &Document) -> (r: Result<Vec<Span>, PagerError>)
        requires
            old(self).inv_core(),
            doc.wf(),
            ({
                ||| (old(self).reserved@.contains(doc.metadata.id)
                    && doc.metadata.spans@.len() == 0)
                ||| (old(self).docs@.dom().contains(doc.metadata.id)
                    && spans_match(doc.metadata.spans@, old(self).docs@[doc.metadata.id].spans))
                ||| (doc.metadata.id == INDEX_PAGE
                    && !old(self).docs@.dom().contains(INDEX_PAGE)
                    && doc.metadata.spans@.len() == 0)
            }),
        ensures
            final(self).indices == old(self).indices,
            final(self).written_ok(),
            old(self).last_used_page <= final(self).last_used_page,
            forall|x: usize| final(self).written@.contains(x)
                <==> (old(self).written@.contains(x)
                    || (r matches Ok(_) && x == doc.metadata.id)),
            r matches Ok(sv) ==> ({
                let id = doc.metadata.id;
                let cs = chunks_of(content_enc(doc.content_view()), PAGE_SIZE as int);
                &&& final(self).inv_core()
                &&& final(self).stale == old(self).stale
                &&& final(self).docs@.dom() =~= old(self).docs@.dom().insert(id)
                &&& final(self).docs@[id].content == doc.content_view()
                &&& forall|o: usize| #[trigger] old(self).docs@.dom().contains(o) && o != id
                    ==> final(self).docs@[o] == old(self).docs@[o]
                &&& final(self).reserved@ == old(self).reserved@.remove(id)
                &&& spans_match(sv@, final(self).docs@[id].spans)
                &&& final(self).docs@[id].spans.len() == cs.len()
                &&& forall|i: int| 0 <= i < doc.metadata.spans@.len()
                        && i < final(self).docs@[id].spans.len()
                    ==> (#[trigger] final(self).docs@[id].spans[i]).0
                        == crate::pager::document::span_page(doc.metadata.spans@[i])
                &&& (final(self).docs@[id].spans.len() < doc.metadata.spans@.len()
                    ==> final(self).free_pages@ == old(self).free_pages@
                        + Seq::new(
                            (doc.metadata.spans@.len() - final(self).docs@[id].spans.len()) as nat,
                            |j: int| crate::pager::document::span_page(
                                doc.metadata.spans@[final(self).docs@[id].spans.len() + j]),
                        ))
                &&& (final(self).docs@[id].spans.len() >= doc.metadata.spans@.len()
                    ==> final(self).free_pages@.len() <= old(self).free_pages@.len()
                        && final(self).free_pages@
                            == old(self).free_pages@.take(final(self).free_pages@.len() as int))
            }),
            r matches Err(_) ==> ({
                &&& final(self).inv_core()
                &&& final(self).docs@ == old(self).docs@.remove(doc.metadata.id)
                &&& final(self).reserved@ == old(self).reserved@.remove(doc.metadata.id)
                &&& final(self).stale@ == old(self).stale@.insert(doc.metadata.id)
                &&& final(self).written == old(self).written
            }),
            r matches Err(e) ==> e == PagerError::TooLarge,
            old(self).docs@.dom().contains(doc.metadata.id)
                && doc.content_view() == old(self).docs@[doc.metadata.id].content
                ==> r matches Ok(_),
            doc.metadata.id == INDEX_PAGE && !old(self).docs@.dom().contains(INDEX_PAGE)
                && doc.content_view().len() == 0 && old(self).free_pages@.len() == 0
                && old(self).last_used_page < usize::MAX - 1
                ==> (r matches Ok(_)
                    && final(self).last_used_page == old(self).last_used_page + 1
                    && final(self).free_pages@ =~= Seq::<usize>::empty()
                    && final(self).header_persisted()),
    {
        let id = doc.id();
        let ghost cs = chunks_of(content_enc(doc.content_view()), PAGE_SIZE as int);
        let chunks = doc.serialize(PAGE_SIZE);
        proof {
            crate::pager::document::lemma_chunks_len(
                content_enc(doc.content_view()), PAGE_SIZE as int);
        }
        let n_new = chunks.len();
        let n_old = doc.metadata.spans.len();
        let ghost old_pairs: Seq<(usize, usize)> = if old(self).docs@.dom().contains(id) {
            old(self).docs@[id].spans
        } else {
            Seq::empty()
        };
        proof {
            if doc.metadata.spans@.len() > 0 {
                assert(old(self).docs@.dom().contains(id));
                assert(old(self).doc_ok(id, old(self).docs@[id]));
            }
        }
        // Free the pages of spans beyond the new span count.
        let mut k = n_new;
        while k < n_old
            invariant
                n_new <= k,
                k <= n_old || k == n_new,
                n_old == doc.metadata.spans@.len(),
                old(self).inv_core(),
                n_old > 0 ==> old(self).docs@.dom().contains(id)
                    && spans_match(doc.metadata.spans@, old(self).docs@[id].spans)
                    && old(self).doc_ok(id, old(self).docs@[id]),
                self.pages == old(self).pages,
                self.last_used_page == old(self).last_used_page,
                self.written == old(self).written,
                self.indices == old(self).indices,
                self.index_spans == old(self).index_spans,
                self.index_present == old(self).index_present,
                self.docs == old(self).docs,
                self.reserved == old(self).reserved,
                self.stale == old(self).stale,
                self.free_pages@ == old(self).free_pages@
                    + Seq::new((k - n_new) as nat, |j: int|
                        crate::pager::document::span_page(doc.metadata.spans@[n_new + j])),
                self.free_ok(),
                self.pages_ok(),
                forall|p: usize| #[trigger] self.owner@.dom().contains(p)
                    ==> old(self).owner@.dom().contains(p)
                        && self.owner@[p] == old(self).owner@[p],
                forall|p: usize| #[trigger] old(self).owner@.dom().contains(p)
                        && old(self).owner@[p] != id
                    ==> self.owner@.dom().contains(p),
                forall|j: int| 0 <= j < n_new && j < n_old
                    ==> self.owner@.dom().contains(
                            crate::pager::document::span_page(#[trigger] doc.metadata.spans@[j]))
                        && self.owner@[crate::pager::document::span_page(doc.metadata.spans@[j])] == id,
                forall|j: int| k <= j < n_old
                    ==> self.owner@.dom().contains(
                            crate::pager::document::span_page(#[trigger] doc.metadata.spans@[j]))
                        && self.owner@[crate::pager::document::span_page(doc.metadata.spans@[j])] == id,
                (old(self).docs@.dom().contains(id) || old(self).reserved@.contains(id))
                    ==> self.owner@.dom().contains(id) && self.owner@[id] == id,
            decreases n_old - k,
        {
            let p = match doc.metadata.spans[k] {
                Span::Allocated { page, .. } => page,
                Span::NeedsAllocation { .. } => unreached(),
            };
            proof {
                assert(old(self).docs@[id].spans[k as int].0 == p);
                assert(2 <= p <= self.last_used_page);
                assert(self.owner@.dom().contains(p));
                assert forall|i: int| 0 <= i < self.free_pages@.len()
                    implies self.free_pages@[i] != p by {
                    assert(!self.owner@.dom().contains(self.free_pages@[i]));
                }
            }
            self.owner = Ghost(self.owner@.remove(p));
            proof {
                assert forall|j: int| k + 1 <= j < n_old
                    implies self.owner@.dom().contains(
                        crate::pager::document::span_page(doc.metadata.spans@[j])) by {
                    let q = crate::pager::document::span_page(doc.metadata.spans@[j]);
                    assert(old(self).docs@[id].spans[j].0 == q);
                    assert(old(self).docs@[id].spans[k as int].0 == p);
                    assert(q != p);
                }
                assert forall|j: int| 0 <= j < n_new && j < n_old
                    implies self.owner@.dom().contains(
                        crate::pager::document::span_page(doc.metadata.spans@[j])) by {
                    let q = crate::pager::document::span_page(doc.metadata.spans@[j]);
                    assert(old(self).docs@[id].spans[j].0 == q);
                    assert(q != p);
                }
                if old(self).docs@.dom().contains(id) || old(self).reserved@.contains(id) {
                    assert(old(self).docs@[id].spans[k as int].0 != id);
                }
            }
            let ghost free_before = self.free_pages@;
            self.free(p);
            proof {
                assert(self.free_pages@ =~= old(self).free_pages@
                    + Seq::new((k + 1 - n_new) as nat, |j: int|
                        crate::pager::document::span_page(doc.metadata.spans@[n_new + j])));
            }
            k += 1;
        }
        proof {
            assert(n_new >= n_old ==> self.free_pages@ =~= old(self).free_pages@);
        }
        let ghost free1 = self.free_pages@;
        let ghost owner1 = self.owner@;
        let ghost lu1 = self.last_used_page;
        let mut new_spans: Vec<Span> = Vec::new();
        let mut new_pairs: Vec<(usize, usize)> = Vec::new();
        let mut i: usize = 0;
        proof {
            assert(self.free_pages@ =~= free1.take(self.free_pages@.len() as int));
            if old(self).docs@.dom().contains(id) {
                assert(old(self).doc_ok(id, old(self).docs@[id]));
                assert(1 <= id <= lu1);
            }
            if old(self).reserved@.contains(id) {
                assert(old(self).owner@.dom().contains(id));
                assert(1 <= id <= lu1);
            }
            assert forall|o: usize| #[trigger] old(self).docs@.dom().contains(o) && o != id
                implies self.doc_ok(o, old(self).docs@[o]) by {
                assert(old(self).doc_ok(o, old(self).docs@[o]));
            }
        }
        while i < n_new
            invariant
                old(self).inv_core(),
                doc.wf(),
                id == doc.metadata.id,
                1 <= id <= lu1,
                n_old == doc.metadata.spans@.len(),
                n_new == chunks@.len(),
                cs == chunks_of(content_enc(doc.content_view()), PAGE_SIZE as int),
                n_new == cs.len(),
                forall|j: int| 0 <= j < cs.len() ==> 1 <= (#[trigger] cs[j]).len() <= PAGE_SIZE,
                forall|j: int| 0 <= j < n_new ==> (#[trigger] chunks@[j]).1@ == cs[j],
                forall|j: int| 0 <= j < n_new && j < n_old
                    ==> (#[trigger] chunks@[j]).0 == (Span::Allocated {
                        page: crate::pager::document::span_page(doc.metadata.spans@[j]),
                        size: cs[j].len() as usize,
                    }),
                forall|j: int| 0 <= j < n_new && j >= n_old
                    ==> (#[trigger] chunks@[j]).0 == (Span::NeedsAllocation {
                        size: cs[j].len() as usize,
                    }),
                n_old > 0 ==> old(self).docs@.dom().contains(id)
                    && spans_match(doc.metadata.spans@, old(self).docs@[id].spans)
                    && old(self).doc_ok(id, old(self).docs@[id]),
                (old(self).reserved@.contains(id) && n_old == 0)
                    || (old(self).docs@.dom().contains(id)
                        && spans_match(doc.metadata.spans@, old(self).docs@[id].spans))
                    || (id == INDEX_PAGE && !old(self).docs@.dom().contains(INDEX_PAGE)
                        && n_old == 0),
                doc.content_view().len() == 0 ==> n_new == 1,
                (id == INDEX_PAGE && !old(self).docs@.dom().contains(INDEX_PAGE)
                    && doc.content_view().len() == 0 && old(self).free_pages@.len() == 0)
                    ==> self.last_used_page == lu1 + i
                        && self.free_pages@.len() == 0
                        && (i > 0 ==> self.header_persisted()),
                i <= n_new,
                new_spans@.len() == i,
                new_pairs@.len() == i,
                self.written == old(self).written,
                self.indices == old(self).indices,
                self.index_spans == old(self).index_spans,
                self.index_present == old(self).index_present,
                self.docs == old(self).docs,
                self.reserved == old(self).reserved,
                self.stale == old(self).stale,
                self.pages_ok(),
                self.free_ok(),
                lu1 == old(self).last_used_page,
                lu1 <= self.last_used_page,
                self.last_used_page <= lu1 + i,
                self.free_pages@.len() <= free1.len(),
                self.free_pages@ == free1.take(self.free_pages@.len() as int),
                n_new < n_old ==> free1 == old(self).free_pages@
                    + Seq::new((n_old - n_new) as nat, |j: int|
                        crate::pager::document::span_page(doc.metadata.spans@[n_new + j])),
                n_new >= n_old ==> free1 == old(self).free_pages@,
                n_new < n_old ==> self.free_pages@ == free1,
                forall|p: usize| #[trigger] owner1.dom().contains(p)
                    ==> self.owner@.dom().contains(p) && self.owner@[p] == owner1[p],
                forall|p: usize| #[trigger] self.owner@.dom().contains(p)
                    ==> 1 <= p <= self.last_used_page,
                forall|p: usize| #[trigger] old(self).owner@.dom().contains(p)
                        && old(self).owner@[p] != id
                    ==> owner1.dom().contains(p) && owner1[p] == old(self).owner@[p],
                (old(self).docs@.dom().contains(id) || old(self).reserved@.contains(id))
                    ==> owner1.dom().contains(id) && owner1[id] == id,
                forall|j: int| 0 <= j < n_new && j < n_old
                    ==> owner1.dom().contains(
                            crate::pager::document::span_page(#[trigger] doc.metadata.spans@[j]))
                        && owner1[crate::pager::document::span_page(doc.metadata.spans@[j])] == id,
                forall|j: int| 0 <= j < i
                    ==> #[trigger] new_spans@[j] == (Span::Allocated {
                        page: new_pairs@[j].0,
                        size: new_pairs@[j].1,
                    }),
                forall|j: int| 0 <= j < i ==> (#[trigger] new_pairs@[j]).1 == cs[j].len(),
                forall|j: int| 0 <= j < i
                    ==> 2 <= (#[trigger] new_pairs@[j]).0 <= self.last_used_page
                        && new_pairs@[j].0 != id,
                forall|j: int| 0 <= j < i
                    ==> self.owner@.dom().contains((#[trigger] new_pairs@[j]).0)
                        && self.owner@[new_pairs@[j].0] == id,
                forall|j: int, j2: int| 0 <= j < j2 < i ==> new_pairs@[j].0 != new_pairs@[j2].0,
                forall|j: int| 0 <= j < i && j < n_old
                    ==> (#[trigger] new_pairs@[j]).0
                        == crate::pager::document::span_page(doc.metadata.spans@[j]),
                forall|j: int| 0 <= j < i
                    ==> self.pages@[(#[trigger] new_pairs@[j]).0 as int]@.take(cs[j].len() as int)
                        == cs[j],
                forall|o: usize| #[trigger] old(self).docs@.dom().contains(o) && o != id
                    ==> self.doc_ok(o, old(self).docs@[o]),
            decreases n_new - i,
        {
            proof {
                assert(chunks@[i as int].1@ == cs[i as int]);
                assert(cs[i as int].len() <= PAGE_SIZE);
            }
            let page: usize = match chunks[i].0 {
                Span::Allocated { page: pg, .. } => {
                    proof {
                        assert(i < n_old);
                        assert(chunks@[i as int].0 == (Span::Allocated {
                            page: crate::pager::document::span_page(doc.metadata.spans@[i as int]),
                            size: cs[i as int].len() as usize,
                        }));
                        assert(pg == crate::pager::document::span_page(doc.metadata.spans@[i as int]));
                        assert(old(self).docs@[id].spans[i as int].0 == pg);
                        assert(2 <= pg <= lu1);
                        assert(owner1.dom().contains(pg) && owner1[pg] == id);
                        assert(old(self).doc_ok(id, old(self).docs@[id]));
                        assert(old(self).docs@[id].spans[i as int].0 != id);
                    }
                    pg
                },
                Span::NeedsAllocation { .. } => {
                    proof {
                        assert(i >= n_old);
                    }
                    match self.get_free_page() {
                        Ok(p) => {
                            proof {
                                assert(!self.owner@.dom().contains(p));
                                assert forall|j: int| 0 <= j < i
                                    implies (#[trigger] new_pairs@[j]).0 != p by {
                                    assert(self.owner@.dom().contains(new_pairs@[j].0));
                                }
                                if old(self).docs@.dom().contains(id)
                                    || old(self).reserved@.contains(id) {
                                    assert(self.owner@.dom().contains(id));
                                }
                            }
                            self.owner = Ghost(self.owner@.insert(p, id));
                            p
                        },
                        Err(e) => {
                            proof {
                                if old(self).docs@.dom().contains(id)
                                    && doc.content_view() == old(self).docs@[id].content {
                                    assert(old(self).doc_ok(id, old(self).docs@[id]));
                                    assert(content_enc(doc.content_view())
                                        == content_enc(old(self).docs@[id].content));
                                    assert(cs.len() == old(self).docs@[id].spans.len());
                                    assert(n_old > 0 || cs.len() == 0);
                                    assert(false);
                                }
                                if id == INDEX_PAGE && !old(self).docs@.dom().contains(INDEX_PAGE)
                                    && doc.content_view().len() == 0
                                    && old(self).free_pages@.len() == 0
                                    && lu1 < usize::MAX - 1 {
                                    assert(n_new == 1 && i == 0);
                                    assert(self.free_pages@.len() == 0);
                                    assert(self.last_used_page <= lu1);
                                    assert(false);
                                }
                            }
                            self.mark_unmodeled(id);
                            if id == INDEX_PAGE {
                                self.index_present = false;
                                self.index_spans = Vec::new();
                            }
                            proof {
                                assert forall|o: usize|
                                    #[trigger] self.docs@.dom().contains(o)
                                    implies self.doc_ok(o, self.docs@[o]) by {
                                    assert(o != id);
                                    assert(old(self).docs@.dom().contains(o));
                                }
                            }
                            return Err(e);
                        },
                    }
                },
            };
            let size = chunks[i].1.len();
            self.write_page(page, &chunks[i].1);
            new_spans.push(Span::Allocated { page, size });
            new_pairs.push((page, size));
            proof {
                assert(self.pages@[page as int]@.take(size as int) == chunks@[i as int].1@);
                assert(self.pages@[page as int]@.take(cs[i as int].len() as int) == cs[i as int]);
                assert forall|j: int| 0 <= j < i
                    implies self.pages@[(#[trigger] new_pairs@[j]).0 as int]@
                        .take(cs[j].len() as int) == cs[j] by {
                    assert(new_pairs@[j].0 != page);
                }
                assert forall|j: int, j2: int| 0 <= j < j2 < i + 1
                    implies new_pairs@[j].0 != new_pairs@[j2].0 by {
                    if j2 == i as int {
                        if j < n_old {
                            assert(i < n_old || !owner1.dom().contains(page) || true);
                        }
                    }
                }
                assert forall|o: usize| #[trigger] old(self).docs@.dom().contains(o) && o != id
                    implies self.doc_ok(o, old(self).docs@[o]) by {
                    let m = old(self).docs@[o];
                    assert(self.owner@.dom().contains(o) && self.owner@[o] == o);
                    assert(page != o);
                    assert forall|jj: int| 0 <= jj < m.spans.len()
                        implies self.pages@[(#[trigger] m.spans[jj]).0 as int]@
                            .take(m.spans[jj].1 as int)
                            == chunks_of(content_enc(m.content), PAGE_SIZE as int)[jj] by {
                        assert(self.owner@.dom().contains(m.spans[jj].0)
                            && self.owner@[m.spans[jj].0] == o);
                        assert(m.spans[jj].0 != page);
                    }
                    assert(meta_enc(o, m.spans).is_prefix_of(self.pages@[o as int]@));
                }
            }
            i += 1;
        }
        let meta_bytes = codec::encode_meta(id, &new_pairs);
        if meta_bytes.len() > PAGE_SIZE {
            proof {
                if old(self).docs@.dom().contains(id)
                    && doc.content_view() == old(self).docs@[id].content {
                    let m = old(self).docs@[id];
                    assert(old(self).doc_ok(id, m));
                    assert(content_enc(doc.content_view()) == content_enc(m.content));
                    assert(new_pairs@.len() == cs.len() && m.spans.len() == cs.len());
                    assert forall|j: int| 0 <= j < new_pairs@.len()
                        implies #[trigger] new_pairs@[j] == m.spans[j] by {
                        assert(new_pairs@[j].0
                            == crate::pager::document::span_page(doc.metadata.spans@[j]));
                        assert(doc.metadata.spans@[j] == (Span::Allocated {
                            page: m.spans[j].0, size: m.spans[j].1 }));
                        assert(new_pairs@[j].1 == cs[j].len());
                        assert(m.spans[j].1 == cs[j].len());
                    }
                    assert(new_pairs@ =~= m.spans);
                    assert(meta_enc(id, new_pairs@).len() <= PAGE_SIZE);
                    assert(false);
                }
                if id == INDEX_PAGE && !old(self).docs@.dom().contains(INDEX_PAGE)
                    && doc.content_view().len() == 0 {
                    assert(new_pairs@.len() == 1);
                    assert(false);
                }
            }
            self.mark_unmodeled(id);
            if id == INDEX_PAGE {
                self.index_present = false;
                self.index_spans = Vec::new();
            }
            proof {
                assert forall|o: usize| #[trigger] self.docs@.dom().contains(o)
                    implies self.doc_ok(o, self.docs@[o]) by {
                    assert(o != id);
                    assert(old(self).docs@.dom().contains(o));
                }
            }
            return Err(PagerError::TooLarge);
        }
        proof {
            if old(self).docs@.dom().contains(id) || old(self).reserved@.contains(id) {
                assert(self.owner@.dom().contains(id) && self.owner@[id] == id);
            }
            assert(id < self.pages@.len());
        }
        self.write_page(id, &meta_bytes);
        let ghost m_new = DocModel { content: doc.content_view(), spans: new_pairs@ };
        proof {
            assert(meta_enc(id, new_pairs@).is_prefix_of(self.pages@[id as int]@));
            assert forall|j: int| 0 <= j < new_pairs@.len()
                implies self.pages@[(#[trigger] new_pairs@[j]).0 as int]@
                    .take(cs[j].len() as int) == cs[j] by {
                assert(new_pairs@[j].0 != id);
            }
            assert(self.doc_ok(id, m_new));
            assert forall|o: usize| #[trigger] old(self).docs@.dom().contains(o) && o != id
                implies self.doc_ok(o, old(self).docs@[o]) by {
                let m = old(self).docs@[o];
                assert(self.owner@.dom().contains(o) && self.owner@[o] == o);
                if old(self).docs@.dom().contains(id) || old(self).reserved@.contains(id) {
                    assert(id != o);
                } else {
                    assert(id == INDEX_PAGE);
                    assert(o != INDEX_PAGE);
                }
                assert forall|jj: int| 0 <= jj < m.spans.len()
                    implies self.pages@[(#[trigger] m.spans[jj]).0 as int]@
                        .take(m.spans[jj].1 as int)
                        == chunks_of(content_enc(m.content), PAGE_SIZE as int)[jj] by {
                    assert(2 <= m.spans[jj].0);
                    assert(m.spans[jj].0 != id || id >= 2);
                    assert(self.owner@.dom().contains(m.spans[jj].0)
                        && self.owner@[m.spans[jj].0] == o);
                    assert(m.spans[jj].0 != id);
                }
                assert(meta_enc(o, m.spans).is_prefix_of(self.pages@[o as int]@));
            }
        }
        self.owner = Ghost(self.owner@.insert(id, id));
        self.docs = Ghost(self.docs@.insert(id, m_new));
        self.reserved = Ghost(self.reserved@.remove(id));
        if !crate::pager::index::contains_id(&self.written, id) {
            self.written.push(id);
        }
        if id == INDEX_PAGE {
            self.index_spans = copy_pairs(&new_pairs);
            self.index_present = true;
        }
        proof {
            assert forall|o: usize| #[trigger] self.docs@.dom().contains(o)
                implies self.doc_ok(o, self.docs@[o]) by {
                if o == id {
                    assert(self.docs@[o] == m_new);
                } else {
                    assert(old(self).docs@.dom().contains(o));
                    assert(self.docs@[o] == old(self).docs@[o]);
                }
            }
            assert(self.docs@.dom() =~= old(self).docs@.dom().insert(id));
            assert forall|x: usize| self.written@.contains(x)
                implies (old(self).written@.contains(x) || x == id) by {
                if !old(self).written@.contains(id) && self.written@ != old(self).written@ {
                    let j = choose|j: int| 0 <= j < self.written@.len() && self.written@[j] == x;
                    if j < old(self).written@.len() {
                        assert(old(self).written@[j] == x);
                    }
                }
            }
            assert forall|x: usize| old(self).written@.contains(x) || x == id
                implies self.written@.contains(x) by {
                if old(self).written@.contains(x) {
                    let j = choose|j: int| 0 <= j < old(self).written@.len()
                        && old(self).written@[j] == x;
                    assert(self.written@[j] == x);
                } else {
                    assert(x == id);
                    assert(self.written@[self.written@.len() - 1] == id);
                }
            }
            assert(self.free_pages@ == free1.take(self.free_pages@.len() as int));
            if n_new >= n_old {
                assert(self.free_pages@
                    == old(self).free_pages@.take(self.free_pages@.len() as int));
            }
        }
        Ok(new_spans)
    }
}

} // verus!


verus! {

/// After the index diff for a write of `id`, the index is again sound
/// and complete for every non-stale id: other ids kept their entries and
/// their documents; `id`'s entries now mirror its new content.
proof fn lemma_write_index_ok(
    pre: Pager,
    post: Pager,
    prevv: Seq<(Seq<char>, Seq<u8>)>,
    newv: Seq<(Seq<char>, Seq<u8>)>,
    ix0: Seq<(Seq<char>, Seq<(Seq<u8>, Seq<usize>)>)>,
    ix1: Seq<(Seq<char>, Seq<(Seq<u8>, Seq<usize>)>)>,
    ix2: Seq<(Seq<char>, Seq<(Seq<u8>, Seq<usize>)>)>,
    id: usize,
)
    requires
        pre.wf(),
        id != INDEX_PAGE,
        ix0 == index_view_of(pre.indices@),
        ix2 == index_view_of(post.indices@),
        forall|f: Seq<char>, v: Seq<u8>, id2: usize|
            #![trigger in_bucket(ix1, f, v, id2)]
            #![trigger in_bucket(ix0, f, v, id2)]
            in_bucket(ix1, f, v, id2)
                <==> (in_bucket(ix0, f, v, id2)
                    && !(id2 == id && diff_before(prevv, newv, prevv.len() as int, f, v))),
        forall|f: Seq<char>, v: Seq<u8>, id2: usize|
            #![trigger in_bucket(ix2, f, v, id2)]
            #![trigger in_bucket(ix1, f, v, id2)]
            in_bucket(ix2, f, v, id2)
                <==> (in_bucket(ix1, f, v, id2)
                    || (id2 == id && diff_before(newv, prevv, newv.len() as int, f, v))),
        unique_keys(newv),
        !pre.stale@.contains(id) ==> unique_keys(prevv)
            && (pre.docs@.dom().contains(id) ==> prevv == pre.docs@[id].content)
            && (!pre.docs@.dom().contains(id)
                ==> prevv =~= Seq::<(Seq<char>, Seq<u8>)>::empty()),
        // how the model may have moved: id re-written or dropped, the
        // index document re-written or dropped, everything else kept
        forall|o: usize| #[trigger] post.docs@.dom().contains(o)
            ==> pre.docs@.dom().contains(o) || o == id || o == INDEX_PAGE,
        forall|o: usize| #[trigger] pre.docs@.dom().contains(o) && o != id && o != INDEX_PAGE
            ==> post.docs@.dom().contains(o) && post.docs@[o] == pre.docs@[o],
        post.docs@.dom().contains(id) ==> post.docs@[id].content == newv,
        forall|x: usize| #[trigger] pre.stale@.contains(x) ==> post.stale@.contains(x),
        forall|x: usize| #[trigger] post.stale@.contains(x)
            ==> pre.stale@.contains(x) || x == id || x == INDEX_PAGE,
        !post.stale@.contains(id) ==> post.docs@.dom().contains(id),
    ensures
        post.index_ok(),
        !post.stale@.contains(id) && post.docs@.dom().contains(id)
            ==> forall|f: Seq<char>, v: Seq<u8>|
                #![trigger in_bucket(ix2, f, v, id), content_has(newv, f, v)]
                in_bucket(ix2, f, v, id) <==> content_has(newv, f, v),
        forall|f: Seq<char>, v: Seq<u8>, id2: usize| id2 != id
            ==> (#[trigger] in_bucket(ix2, f, v, id2) <==> in_bucket(ix0, f, v, id2)),
{
    let dpre = pre.docs@;
    let dpost = post.docs@;
    assert forall|f: Seq<char>, v: Seq<u8>, id2: usize| id2 != id
        implies (#[trigger] in_bucket(ix2, f, v, id2) <==> in_bucket(ix0, f, v, id2)) by {
        assert(in_bucket(ix2, f, v, id2) == in_bucket(ix1, f, v, id2));
    }
    if !post.stale@.contains(id) && post.docs@.dom().contains(id) {
        assert(!pre.stale@.contains(id));
        assert forall|f: Seq<char>, v: Seq<u8>|
            in_bucket(ix2, f, v, id) <==> content_has(newv, f, v) by {
            lemma_diff_full(newv, prevv, f, v);
            lemma_diff_full(prevv, newv, f, v);
            if in_bucket(ix2, f, v, id) {
                if in_bucket(ix1, f, v, id) {
                    assert(in_bucket(ix0, f, v, id));
                    assert(dpre.dom().contains(id) && content_has(dpre[id].content, f, v));
                    assert(content_has(prevv, f, v));
                    assert(!diff_before(prevv, newv, prevv.len() as int, f, v));
                    assert(crate::pager::document::content_get(newv, f) == Some(v));
                } else {
                    assert(diff_before(newv, prevv, newv.len() as int, f, v));
                }
            }
            if content_has(newv, f, v) {
                if crate::pager::document::content_get(prevv, f) == Some(v) {
                    assert(content_has(prevv, f, v));
                    if dpre.dom().contains(id) {
                        assert(content_has(dpre[id].content, f, v));
                        assert(in_bucket(ix0, f, v, id));
                        assert(!diff_before(prevv, newv, prevv.len() as int, f, v));
                        assert(in_bucket(ix1, f, v, id));
                    } else {
                        assert(prevv.len() == 0);
                        assert(crate::pager::document::content_get(prevv, f) is None);
                        assert(false);
                    }
                } else {
                    assert(diff_before(newv, prevv, newv.len() as int, f, v));
                }
            }
        }
    }
    assert forall|f: Seq<char>, v: Seq<u8>, id2: usize|
        in_bucket(ix2, f, v, id2) && !post.stale@.contains(id2)
        implies id2 != INDEX_PAGE && dpost.dom().contains(id2)
            && content_has(dpost[id2].content, f, v) by {
        assert(!pre.stale@.contains(id2));
        if id2 != id {
            assert(in_bucket(ix0, f, v, id2));
            assert(dpre.dom().contains(id2) && id2 != INDEX_PAGE
                && content_has(dpre[id2].content, f, v));
            assert(dpost.dom().contains(id2) && dpost[id2] == dpre[id2]);
        } else {
            assert(dpost.dom().contains(id));
            lemma_diff_full(newv, prevv, f, v);
            lemma_diff_full(prevv, newv, f, v);
            if in_bucket(ix1, f, v, id) {
                assert(in_bucket(ix0, f, v, id));
                assert(dpre.dom().contains(id) && content_has(dpre[id].content, f, v));
                assert(content_has(prevv, f, v));
                assert(!diff_before(prevv, newv, prevv.len() as int, f, v));
                assert(crate::pager::document::content_get(newv, f) == Some(v));
            } else {
                assert(diff_before(newv, prevv, newv.len() as int, f, v));
                assert(content_has(newv, f, v));
            }
        }
    }
    assert forall|id2: usize, f: Seq<char>, v: Seq<u8>|
        dpost.dom().contains(id2) && !post.stale@.contains(id2) && id2 != INDEX_PAGE
            && content_has(dpost[id2].content, f, v)
        implies in_bucket(ix2, f, v, id2) by {
        assert(!pre.stale@.contains(id2));
        if id2 != id {
            assert(dpre.dom().contains(id2)) by {
                if !dpre.dom().contains(id2) {
                    assert(post.docs@.dom().contains(id2));
                }
            }
            assert(dpre[id2] == dpost[id2]);
            assert(content_has(dpre[id2].content, f, v));
            assert(in_bucket(ix0, f, v, id2));
            assert(in_bucket(ix1, f, v, id2));
        } else {
            assert(content_has(newv, f, v));
            lemma_diff_full(newv, prevv, f, v);
            lemma_diff_full(prevv, newv, f, v);
            if crate::pager::document::content_get(prevv, f) == Some(v) {
                assert(content_has(prevv, f, v));
                if dpre.dom().contains(id) {
                    assert(content_has(dpre[id].content, f, v));
                    assert(in_bucket(ix0, f, v, id));
                    assert(!diff_before(prevv, newv, prevv.len() as int, f, v));
                    assert(in_bucket(ix1, f, v, id));
                } else {
                    assert(prevv.len() == 0);
                    assert(crate::pager::document::content_get(prevv, f) is None);
                    assert(false);
                }
            } else {
                assert(diff_before(newv, prevv, newv.len() as int, f, v));
            }
        }
    }
}

/// Whether one of the first `k` fields of `a` is bound to exactly `v`
/// there while the map `b` does not bind it to `v`: the fields whose
/// index entries differ between the two contents.
pub open spec fn diff_before(
    a: Seq<(Seq<char>, Seq<u8>)>,
    b: Seq<(Seq<char>, Seq<u8>)>,
    k: int,
    f: Seq<char>,
    v: Seq<u8>,
) -> bool {
    exists|j: int| 0 <= j < k && (#[trigger] a[j]).0 == f && a[j].1 == v
        && crate::pager::document::content_get(b, f) != Some(v)
}

/// Extending the scanned prefix by one adds exactly that pair's clause.
proof fn lemma_diff_before_step(
    a: Seq<(Seq<char>, Seq<u8>)>,
    b: Seq<(Seq<char>, Seq<u8>)>,
    k: int,
    f: Seq<char>,
    v: Seq<u8>,
)
    requires
        0 <= k < a.len(),
    ensures
        diff_before(a, b, k + 1, f, v) <==> (diff_before(a, b, k, f, v)
            || (a[k].0 == f && a[k].1 == v
                && crate::pager::document::content_get(b, f) != Some(v))),
{
    if diff_before(a, b, k + 1, f, v) {
        let j = choose|j: int| 0 <= j < k + 1 && (#[trigger] a[j]).0 == f && a[j].1 == v
            && crate::pager::document::content_get(b, f) != Some(v);
        if j < k {
            assert(diff_before(a, b, k, f, v));
        }
    }
    if a[k].0 == f && a[k].1 == v
        && crate::pager::document::content_get(b, f) != Some(v) {
        assert(diff_before(a, b, k + 1, f, v));
    }
}

/// Over the whole map with unique keys, the prefix predicate says: the
/// map binds `f` to `v` and the other map does not.
proof fn lemma_diff_full(
    a: Seq<(Seq<char>, Seq<u8>)>,
    b: Seq<(Seq<char>, Seq<u8>)>,
    f: Seq<char>,
    v: Seq<u8>,
)
    requires
        unique_keys(a),
    ensures
        diff_before(a, b, a.len() as int, f, v) <==> (content_has(a, f, v)
            && crate::pager::document::content_get(b, f) != Some(v)),
{
    if diff_before(a, b, a.len() as int, f, v) {
        let j = choose|j: int| 0 <= j < a.len() && (#[trigger] a[j]).0 == f && a[j].1 == v
            && crate::pager::document::content_get(b, f) != Some(v);
        crate::pager::assoc::lemma_assoc_get_at(a, j);
    }
    if content_has(a, f, v) && crate::pager::document::content_get(b, f) != Some(v) {
        crate::pager::assoc::lemma_assoc_get_position(a, f);
        let j = choose|j: int| 0 <= j < a.len() && a[j].0 == f
            && a[j].1 == crate::pager::assoc::assoc_get(a, f)->Some_0;
        assert(a[j].0 == f && a[j].1 == v);
        assert(diff_before(a, b, a.len() as int, f, v));
    }
}

/// Append the bytes of `b` to `acc`.
fn append_bytes(acc: &mut Vec<u8>, b: &Vec<u8>)
    ensures
        final(acc)@ == old(acc)@ + b@,
{
    let mut i: usize = 0;
    while i < b.len()
        invariant
            i <= b@.len(),
            acc@ =~= old(acc)@ + b@.take(i as int),
        decreases b@.len() - i,
    {
        acc.push(b[i]);
        proof {
            assert(acc@ =~= old(acc)@ + b@.take(i as int + 1));
        }
        i += 1;
    }
    proof {
        assert(acc@ =~= old(acc)@ + b@);
    }
}

/// An exact copy of a (page, size) pair vector.
fn copy_pairs(v: &Vec<(usize, usize)>) -> (r: Vec<(usize, usize)>)
    ensures
        r@ == v@,
{
    let mut r: Vec<(usize, usize)> = Vec::new();
    let mut i: usize = 0;
    while i < v.len()
        invariant
            i <= v@.len(),
            r@ =~= v@.take(i as int),
        decreases v@.len() - i,
    {
        r.push(v[i]);
        proof {
            assert(r@ =~= v@.take(i as int + 1));
        }
        i += 1;
    }
    proof {
        assert(r@ =~= v@);
    }
    r
}

/// Dropping one id from the model preserves the persistence invariant
/// when nothing else changed.
proof fn lemma_inv_core_after_drop(pre: Pager, post: Pager, id: usize)
    requires
        pre.inv_core(),
        post.docs@ == pre.docs@.remove(id),
        post.reserved@ == pre.reserved@.remove(id),
        post.stale@ == pre.stale@.insert(id),
        post.pages == pre.pages,
        post.free_pages == pre.free_pages,
        post.last_used_page == pre.last_used_page,
        post.written == pre.written,
        post.indices == pre.indices,
        post.owner == pre.owner,
        post.index_present == (pre.index_present && id != INDEX_PAGE),
        id == INDEX_PAGE ==> post.index_spans@.len() == 0,
        id != INDEX_PAGE ==> post.index_spans == pre.index_spans,
    ensures
        post.inv_core(),
{
    assert forall|o: usize| #[trigger] post.docs@.dom().contains(o)
        implies post.doc_ok(o, post.docs@[o]) by {
        assert(pre.docs@.dom().contains(o));
        assert(pre.doc_ok(o, pre.docs@[o]));
    }
}

} // verus!
