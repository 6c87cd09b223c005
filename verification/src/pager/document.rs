//! Documents: a content map (field name → serialized value bytes) plus the
//! metadata that maps the document's encoded bytes onto storage pages.

use vstd::prelude::*;

verus! {

use vstd::pervasive::VecAdditionalExecFns;

use crate::pager::assoc::assoc_get;
use crate::pager::assoc::assoc_unique;
use crate::pager::assoc::lemma_assoc_prefix_miss;
use crate::pager::assoc::lemma_assoc_push;
use crate::pager::assoc::lemma_assoc_update;
use crate::pager::codec;
use crate::pager::codec::content_enc;

/// One contiguous range of a document's encoded content, either still
/// waiting for a page or already mapped to one.
#[derive(Debug, Clone, Copy, PartialEq, Eq, Structural)]
pub enum Span {
    NeedsAllocation { size: usize },
    Allocated { page: usize, size: usize },
}

/// A document's persistent identity: the page number holding its metadata,
/// and the ordered spans its content bytes occupy.
#[derive(Debug, Clone)]
pub struct Metadata {
    pub id: usize,
    pub spans: Vec<Span>,
}

/// An in-memory document: its content map and its metadata.
///
/// The content map keeps fields in insertion order with no repeated field
/// name; `insert` overwrites in place, so the same fields written in the
/// same order always encode to byte-identical output.
#[derive(Debug, Clone)]
pub struct Document {
    pub content: Vec<(String, Vec<u8>)>,
    pub metadata: Metadata,
}

pub open spec fn span_allocated(s: Span) -> bool {
    s is Allocated
}

pub open spec fn span_page(s: Span) -> usize {
    match s {
        Span::Allocated { page, .. } => page,
        Span::NeedsAllocation { .. } => 0,
    }
}

pub open spec fn span_size(s: Span) -> usize {
    match s {
        Span::Allocated { size, .. } => size,
        Span::NeedsAllocation { size } => size,
    }
}

/// A content map as a mathematical sequence of (name, bytes) pairs.
pub open spec fn content_view_of(c: Seq<(String, Vec<u8>)>) -> Seq<(Seq<char>, Seq<u8>)> {
    Seq::new(c.len(), |i: int| (c[i].0@, c[i].1@))
}

/// The value the content map associates with field `f` (first match).
#[verifier::inline]
pub open spec fn content_get(c: Seq<(Seq<char>, Seq<u8>)>, f: Seq<char>) -> Option<Seq<u8>> {
    assoc_get(c, f)
}

/// Whether the content map holds field `f` with exactly the value `v`.
pub open spec fn content_has(c: Seq<(Seq<char>, Seq<u8>)>, f: Seq<char>, v: Seq<u8>) -> bool {
    content_get(c, f) == Some(v)
}

/// No field name occurs twice: the content map is a mapping.
#[verifier::inline]
pub open spec fn unique_keys(c: Seq<(Seq<char>, Seq<u8>)>) -> bool {
    assoc_unique(c)
}

/// The encoded buffer cut into page-sized pieces: full pieces of `ps`
/// bytes, then whatever remains.
pub open spec fn chunks_of(b: Seq<u8>, ps: int) -> Seq<Seq<u8>>
    recommends
        ps >= 1,
    decreases b.len(),
{
    if ps <= 0 || b.len() <= 0 {
        Seq::empty()
    } else if b.len() <= ps {
        seq![b]
    } else {
        seq![b.take(ps)] + chunks_of(b.skip(ps), ps)
    }
}

/// Concatenating the chunks in order restores the buffer.
pub proof fn lemma_chunks_flatten(b: Seq<u8>, ps: int)
    requires
        ps >= 1,
    ensures
        chunks_of(b, ps).flatten() == b,
    decreases b.len(),
{
    if b.len() <= 0 {
        assert(chunks_of(b, ps).flatten() =~= b);
    } else if b.len() <= ps {
        assert(chunks_of(b, ps) == seq![b]);
        seq![b].lemma_flatten_one_element();
        assert(seq![b].first() == b);
    } else {
        lemma_chunks_flatten(b.skip(ps), ps);
        let cs = chunks_of(b, ps);
        assert(cs == seq![b.take(ps)] + chunks_of(b.skip(ps), ps));
        assert(cs.drop_first() =~= chunks_of(b.skip(ps), ps));
        assert(cs[0] == b.take(ps));
        assert(cs.flatten() == cs[0] + cs.drop_first().flatten());
        assert(cs.flatten() =~= b);
    }
}

/// Buffers of equal length cut into chunks of equal count and sizes.
pub proof fn lemma_chunks_same_len(b1: Seq<u8>, b2: Seq<u8>, ps: int)
    requires
        ps >= 1,
        b1.len() == b2.len(),
    ensures
        chunks_of(b1, ps).len() == chunks_of(b2, ps).len(),
        forall|i: int| 0 <= i < chunks_of(b1, ps).len()
            ==> (#[trigger] chunks_of(b1, ps)[i]).len() == chunks_of(b2, ps)[i].len(),
    decreases b1.len(),
{
    if b1.len() > ps {
        lemma_chunks_same_len(b1.skip(ps), b2.skip(ps), ps);
        assert(forall|i: int| 1 <= i < chunks_of(b1, ps).len()
            ==> chunks_of(b1, ps)[i] == chunks_of(b1.skip(ps), ps)[i - 1]);
        assert(forall|i: int| 1 <= i < chunks_of(b2, ps).len()
            ==> chunks_of(b2, ps)[i] == chunks_of(b2.skip(ps), ps)[i - 1]);
    }
}

/// The total length of a sequence of chunks.
pub open spec fn lens_total(cs: Seq<Seq<u8>>) -> int
    decreases cs.len(),
{
    if cs.len() == 0 {
        0
    } else {
        cs[0].len() + lens_total(cs.drop_first())
    }
}

/// The chunks of a buffer cover it exactly: their lengths sum to its length.
pub proof fn lemma_chunks_lens_total(b: Seq<u8>, ps: int)
    requires
        ps >= 1,
    ensures
        lens_total(chunks_of(b, ps)) == b.len(),
    decreases b.len(),
{
    assert(lens_total(Seq::<Seq<u8>>::empty()) == 0);
    if b.len() <= 0 {
        assert(chunks_of(b, ps) =~= Seq::<Seq<u8>>::empty());
    } else if b.len() <= ps {
        assert(chunks_of(b, ps) == seq![b]);
        assert(seq![b].drop_first() =~= Seq::<Seq<u8>>::empty());
        assert(lens_total(seq![b]) == b.len() + lens_total(seq![b].drop_first()));
    } else {
        lemma_chunks_lens_total(b.skip(ps), ps);
        let cs = chunks_of(b, ps);
        assert(cs == seq![b.take(ps)] + chunks_of(b.skip(ps), ps));
        assert(cs.drop_first() =~= chunks_of(b.skip(ps), ps));
        assert(cs[0] == b.take(ps));
        assert(lens_total(cs) == cs[0].len() + lens_total(cs.drop_first()));
    }
}

/// Every chunk fits in a page and is nonempty.
pub proof fn lemma_chunks_len(b: Seq<u8>, ps: int)
    requires
        ps >= 1,
    ensures
        forall|i: int| 0 <= i < chunks_of(b, ps).len()
            ==> 1 <= (#[trigger] chunks_of(b, ps)[i]).len() <= ps,
    decreases b.len(),
{
    if b.len() > ps {
        lemma_chunks_len(b.skip(ps), ps);
        assert(forall|i: int| 1 <= i < chunks_of(b, ps).len()
            ==> chunks_of(b, ps)[i] == chunks_of(b.skip(ps), ps)[i - 1]);
    }
}

impl Document {
    /// The content map as a mathematical sequence of (name, bytes) pairs.
    pub open spec fn content_view(&self) -> Seq<(Seq<char>, Seq<u8>)> {
        content_view_of(self.content@)
    }

    /// A well-formed document never repeats a field name.
    pub open spec fn wf(&self) -> bool {
        unique_keys(self.content_view())
    }

    /// An empty document tagged with an already-allocated page number.
    pub fn new(id: usize) -> (r: Document)
        ensures
            r.metadata.id == id,
            r.metadata.spans@ =~= Seq::<Span>::empty(),
            r.content_view() =~= Seq::<(Seq<char>, Seq<u8>)>::empty(),
            r.wf(),
    {
        Document { content: Vec::new(), metadata: Metadata { id, spans: Vec::new() } }
    }

    pub fn id(&self) -> (r: usize)
        ensures
            r == self.metadata.id,
    {
        self.metadata.id
    }

    /// Set field `key` to the already-serialized value `value`, replacing
    /// any value the field held before.
    pub fn insert(&mut self, key: &str, value: Vec<u8>)
        requires
            old(self).wf(),
        ensures
            final(self).wf(),
            final(self).metadata == old(self).metadata,
            content_get(final(self).content_view(), key@) == Some(value@),
            forall|f: Seq<char>| f != key@
                ==> content_get(final(self).content_view(), f)
                    == content_get(old(self).content_view(), f),
            content_get(old(self).content_view(), key@) is None
                ==> final(self).content_view()
                    == old(self).content_view().push((key@, value@)),
    {
        let k: String = key.to_owned();
        let n = self.content.len();
        let mut i: usize = 0;
        while i < n
            invariant
                old(self).wf(),
                n == self.content.len(),
                i <= n,
                k@ == key@,
                *self == *old(self),
                forall|j: int| 0 <= j < i ==> self.content_view()[j].0 != k@,
            decreases n - i,
        {
            if self.content[i].0 == k {
                assert(self.content_view()[i as int].0 == k@);
                self.content.set(i, (k, value));
                proof {
                    let cv = old(self).content_view();
                    let nv = self.content_view();
                    assert(nv =~= cv.update(i as int, (key@, value@)));
                    lemma_assoc_update(cv, i as int, key@, value@);
                    crate::pager::assoc::lemma_assoc_get_at(cv, i as int);
                }
                return;
            }
            i += 1;
        }
        assert(forall|j: int| 0 <= j < self.content_view().len()
            ==> self.content_view()[j].0 != k@);
        self.content.push((k, value));
        proof {
            let cv = old(self).content_view();
            let nv = self.content_view();
            assert(nv =~= cv.push((key@, value@)));
            lemma_assoc_push(cv, key@, value@);
        }
    }

    /// The serialized value of field `key`, if the document holds it.
    pub fn get(&self, key: &str) -> (r: Option<&Vec<u8>>)
        ensures
            match r {
                Some(v) => content_get(self.content_view(), key@) == Some(v@),
                None => content_get(self.content_view(), key@) is None,
            },
    {
        let k: String = key.to_owned();
        let n = self.content.len();
        let mut i: usize = 0;
        while i < n
            invariant
                n == self.content.len(),
                i <= n,
                k@ == key@,
                forall|j: int| 0 <= j < i ==> self.content_view()[j].0 != k@,
            decreases n - i,
        {
            if self.content[i].0 == k {
                assert(self.content_view()[i as int].0 == k@);
                proof {
                    lemma_assoc_prefix_miss(self.content_view(), k@, i as int);
                }
                return Some(&self.content[i].1);
            }
            i += 1;
        }
        proof {
            lemma_assoc_prefix_miss(self.content_view(), k@, n as int);
        }
        None
    }

    /// Cut the document's encoded content into page-sized chunks, pairing
    /// chunk `i` with the page already allocated at span position `i`, or
    /// marking it as needing allocation past the existing spans.
    pub fn serialize(&self, page_size: usize) -> (chunks: Vec<(Span, Vec<u8>)>)
        requires
            page_size >= 1,
            forall|i: int| 0 <= i < self.metadata.spans@.len()
                ==> span_allocated(self.metadata.spans@[i]),
        ensures
            self.content_view().len() == 0 ==> chunks@.len() == 1,
            ({
                let cs = chunks_of(content_enc(self.content_view()), page_size as int);
                &&& chunks@.len() == cs.len()
                &&& forall|i: int| 0 <= i < cs.len() ==> (#[trigger] chunks@[i]).1@ == cs[i]
                &&& forall|i: int| 0 <= i < cs.len() && i < self.metadata.spans@.len()
                    ==> (#[trigger] chunks@[i]).0 == (Span::Allocated {
                        page: span_page(self.metadata.spans@[i]),
                        size: cs[i].len() as usize,
                    })
                &&& forall|i: int| 0 <= i < cs.len() && i >= self.metadata.spans@.len()
                    ==> (#[trigger] chunks@[i]).0 == (Span::NeedsAllocation {
                        size: cs[i].len() as usize,
                    })
            }),
    {
        let buf = codec::encode_content(&self.content);
        let ghost cs = chunks_of(buf@, page_size as int);
        let mut out: Vec<(Span, Vec<u8>)> = Vec::new();
        let mut off: usize = 0;
        proof {
            assert(buf@.skip(0) =~= buf@);
        }
        while off < buf.len()
            invariant
                page_size >= 1,
                cs == chunks_of(buf@, page_size as int),
                off <= buf.len(),
                out@.len() <= cs.len(),
                chunks_of(buf@.skip(off as int), page_size as int) =~= cs.skip(out@.len() as int),
                forall|i: int| 0 <= i < out@.len() ==> (#[trigger] out@[i]).1@ == cs[i],
                forall|i: int| 0 <= i < out@.len() && i < self.metadata.spans@.len()
                    ==> (#[trigger] out@[i]).0 == (Span::Allocated {
                        page: span_page(self.metadata.spans@[i]),
                        size: cs[i].len() as usize,
                    }),
                forall|i: int| 0 <= i < out@.len() && i >= self.metadata.spans@.len()
                    ==> (#[trigger] out@[i]).0 == (Span::NeedsAllocation {
                        size: cs[i].len() as usize,
                    }),
                forall|i: int| 0 <= i < self.metadata.spans@.len()
                    ==> span_allocated(self.metadata.spans@[i]),
            decreases buf.len() - off,
        {
            let rem = buf.len() - off;
            let size = if rem > page_size { page_size } else { rem };
            let idx = out.len();
            proof {
                let suf = buf@.skip(off as int);
                assert(suf.len() == rem);
                if rem > page_size {
                    assert(chunks_of(suf, page_size as int)
                        == seq![suf.take(page_size as int)]
                            + chunks_of(suf.skip(page_size as int), page_size as int));
                    assert(suf.take(page_size as int)
                        =~= buf@.subrange(off as int, off as int + size as int));
                } else {
                    assert(chunks_of(suf, page_size as int) == seq![suf]);
                    assert(suf =~= buf@.subrange(off as int, off as int + size as int));
                }
                assert(cs.skip(idx as int).len() >= 1);
                assert(idx < cs.len());
                assert(cs[idx as int] == cs.skip(idx as int)[0]);
                assert(cs[idx as int] == buf@.subrange(off as int, off as int + size as int));
            }
            let data = subvec(&buf, off, off + size);
            let span = if idx < self.metadata.spans.len() {
                match self.metadata.spans[idx] {
                    Span::Allocated { page, size: _ } => Span::Allocated { page, size },
                    Span::NeedsAllocation { .. } => unreached(),
                }
            } else {
                Span::NeedsAllocation { size }
            };
            out.push((span, data));
            off += size;
            proof {
                let suf_old = buf@.skip(off as int - size as int);
                let suf_new = buf@.skip(off as int);
                if suf_old.len() > page_size {
                    assert(suf_new =~= suf_old.skip(page_size as int));
                    assert(chunks_of(suf_old, page_size as int).drop_first()
                        =~= chunks_of(suf_new, page_size as int));
                } else {
                    assert(suf_new.len() == 0);
                    assert(chunks_of(suf_new, page_size as int).len() == 0);
                }
                assert(cs.skip(idx as int).drop_first() =~= cs.skip(idx as int + 1));
                assert(chunks_of(suf_new, page_size as int) =~= cs.skip(idx as int + 1));
            }
        }
        proof {
            assert(buf@.skip(off as int).len() == 0);
            assert(cs.skip(out@.len() as int).len() == 0);
            assert(out@.len() == cs.len());
            if self.content_view().len() == 0 {
                assert(self.content@.len() == 0);
                assert(buf@.len() == 1);
                assert(cs == seq![buf@]);
                assert(cs.len() == 1);
            }
        }
        out
    }
}

/// The bytes of `v` between positions `a` and `b`.
pub fn subvec(v: &Vec<u8>, a: usize, b: usize) -> (r: Vec<u8>)
    requires
        a <= b <= v@.len(),
    ensures
        r@ == v@.subrange(a as int, b as int),
{
    let mut r: Vec<u8> = Vec::new();
    let mut i: usize = a;
    while i < b
        invariant
            a <= i <= b <= v@.len(),
            r@ =~= v@.subrange(a as int, i as int),
        decreases b - i,
    {
        r.push(v[i]);
        proof {
            assert(r@ =~= v@.subrange(a as int, i as int + 1));
        }
        i += 1;
    }
    r
}

} // verus!
