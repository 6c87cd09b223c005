//! The secondary index: field name → (encoded value → ids of the
//! documents whose current content holds that value), kept as nested
//! association vectors, diff-updated on every document write.

use vstd::prelude::*;

verus! {

use crate::pager::assoc::assoc_get;
use crate::pager::assoc::assoc_unique;
use crate::pager::assoc::lemma_assoc_get_at;
use crate::pager::assoc::lemma_assoc_prefix_miss;
use crate::pager::assoc::lemma_assoc_push;
use crate::pager::assoc::lemma_assoc_remove;
use crate::pager::assoc::lemma_assoc_update;
use crate::pager::codec::bucket_view_of;
use vstd::pervasive::VecAdditionalExecFns;

/// One field's buckets: encoded value bytes → ids of documents holding it.
pub type Bucket = Vec<(Vec<u8>, Vec<usize>)>;

/// The whole index as a mathematical nested association sequence.
pub open spec fn index_view_of(ix: Seq<(String, Bucket)>) -> Seq<(Seq<char>, Seq<(Seq<u8>, Seq<usize>)>)> {
    Seq::new(ix.len(), |i: int| (ix[i].0@, bucket_view_of(ix[i].1@)))
}

/// The ids recorded under field `f` and encoded value `v` (empty when no
/// such bucket exists).
pub open spec fn bucket_ids(
    ixv: Seq<(Seq<char>, Seq<(Seq<u8>, Seq<usize>)>)>,
    f: Seq<char>,
    v: Seq<u8>,
) -> Seq<usize> {
    match assoc_get(ixv, f) {
        Some(b) => match assoc_get(b, v) {
            Some(ids) => ids,
            None => Seq::empty(),
        },
        None => Seq::empty(),
    }
}

/// Whether the index records document `id` under field `f`, value `v`.
pub open spec fn in_bucket(
    ixv: Seq<(Seq<char>, Seq<(Seq<u8>, Seq<usize>)>)>,
    f: Seq<char>,
    v: Seq<u8>,
    id: usize,
) -> bool {
    bucket_ids(ixv, f, v).contains(id)
}

/// No id is listed twice.
pub open spec fn dupfree(s: Seq<usize>) -> bool {
    forall|i: int, j: int| 0 <= i < j < s.len() ==> s[i] != s[j]
}

/// A field's buckets are a mapping; no bucket is empty or repeats an id.
pub open spec fn wf_bucket(b: Seq<(Seq<u8>, Seq<usize>)>) -> bool {
    &&& assoc_unique(b)
    &&& forall|i: int| 0 <= i < b.len() ==> (#[trigger] b[i]).1.len() >= 1
    &&& forall|i: int| 0 <= i < b.len() ==> dupfree((#[trigger] b[i]).1)
}

/// The index is a mapping from field names to well-formed buckets.
pub open spec fn wf_index(ixv: Seq<(Seq<char>, Seq<(Seq<u8>, Seq<usize>)>)>) -> bool {
    &&& assoc_unique(ixv)
    &&& forall|i: int| 0 <= i < ixv.len() ==> wf_bucket((#[trigger] ixv[i]).1)
}

/// Whether two byte vectors hold the same bytes.
pub(crate) fn bytes_eq(a: &Vec<u8>, b: &Vec<u8>) -> (r: bool)
    ensures
        r == (a@ == b@),
{
    if a.len() != b.len() {
        return false;
    }
    let mut i: usize = 0;
    while i < a.len()
        invariant
            a@.len() == b@.len(),
            i <= a@.len(),
            forall|j: int| 0 <= j < i ==> a@[j] == b@[j],
        decreases a@.len() - i,
    {
        if a[i] != b[i] {
            return false;
        }
        i += 1;
    }
    proof {
        assert(a@ =~~= b@);
    }
    true
}

/// An exact copy of a byte vector.
pub(crate) fn copy_bytes(v: &Vec<u8>) -> (r: Vec<u8>)
    ensures
        r@ == v@,
{
    let mut r: Vec<u8> = Vec::new();
    let mut i: usize = 0;
    while i < v.len()
        invariant
            i <= v@.len(),
            r@ =~~= v@.take(i as int),
        decreases v@.len() - i,
    {
        r.push(v[i]);
        proof {
            assert(r@ =~~= v@.take(i as int + 1));
        }
        i += 1;
    }
    proof {
        assert(r@ =~~= v@);
    }
    r
}

/// An exact copy of an id vector.
pub(crate) fn copy_ids(v: &Vec<usize>) -> (r: Vec<usize>)
    ensures
        r@ == v@,
{
    let mut r: Vec<usize> = Vec::new();
    let mut i: usize = 0;
    while i < v.len()
        invariant
            i <= v@.len(),
            r@ =~~= v@.take(i as int),
        decreases v@.len() - i,
    {
        r.push(v[i]);
        proof {
            assert(r@ =~~= v@.take(i as int + 1));
        }
        i += 1;
    }
    proof {
        assert(r@ =~~= v@);
    }
    r
}

/// Whether the id vector lists `x`.
pub(crate) fn contains_id(v: &Vec<usize>, x: usize) -> (r: bool)
    ensures
        r == v@.contains(x),
{
    let mut i: usize = 0;
    while i < v.len()
        invariant
            i <= v@.len(),
            forall|j: int| 0 <= j < i ==> v@[j] != x,
        decreases v@.len() - i,
    {
        if v[i] == x {
            return true;
        }
        i += 1;
    }
    false
}

/// The id vector with every occurrence of `x` dropped.
pub(crate) fn remove_id(v: &Vec<usize>, x: usize) -> (r: Vec<usize>)
    requires
        dupfree(v@),
    ensures
        dupfree(r@),
        forall|id: usize| r@.contains(id) <==> (v@.contains(id) && id != x),
        r@.len() == 0 ==> forall|j: int| 0 <= j < v@.len() ==> v@[j] == x,
{
    let mut r: Vec<usize> = Vec::new();
    let mut i: usize = 0;
    while i < v.len()
        invariant
            dupfree(v@),
            i <= v@.len(),
            dupfree(r@),
            forall|id: usize| r@.contains(id)
                <==> (exists|j: int| 0 <= j < i && v@[j] == id && id != x),
            r@.len() == 0 ==> forall|j: int| 0 <= j < i ==> v@[j] == x,
        decreases v@.len() - i,
    {
        if v[i] != x {
            proof {
                if r@.contains(v@[i as int]) {
                    let j = choose|j: int| 0 <= j < i && v@[j] == v@[i as int] && v@[j] != x;
                    assert(false);
                }
            }
            let ghost r_old = r@;
            r.push(v[i]);
            proof {
                assert(forall|j: int| 0 <= j < r_old.len() ==> r@[j] == r_old[j]);
                assert(r@[r_old.len() as int] == v@[i as int]);
                assert forall|id: usize| r@.contains(id)
                    implies (exists|j: int| 0 <= j <= i && v@[j] == id && id != x) by {
                    let j = choose|j: int| 0 <= j < r@.len() && r@[j] == id;
                    if j < r_old.len() {
                        assert(r_old.contains(id));
                    } else {
                        assert(v@[i as int] == id);
                    }
                }
                assert forall|id: usize| (exists|j: int| 0 <= j <= i && v@[j] == id && id != x)
                    implies r@.contains(id) by {
                    let j = choose|j: int| 0 <= j <= i && v@[j] == id && id != x;
                    if j < i {
                        assert(r_old.contains(id));
                        let jj = choose|jj: int| 0 <= jj < r_old.len() && r_old[jj] == id;
                        assert(r@[jj] == id);
                    } else {
                        assert(r@[r_old.len() as int] == id);
                    }
                }
            }
        }
        i += 1;
    }
    proof {
        assert forall|id: usize| r@.contains(id) <==> (v@.contains(id) && id != x) by {
            if v@.contains(id) && id != x {
                let j = choose|j: int| 0 <= j < v@.len() && v@[j] == id;
                assert(exists|jj: int| 0 <= jj < v@.len() && v@[jj] == id && id != x);
            }
            if r@.contains(id) {
                let j = choose|j: int| 0 <= j < v@.len() && v@[j] == id && id != x;
                assert(v@[j] == id);
            }
        }
    }
    r
}

/// The position of field `key`, if the index has it.
fn find_field(ix: &Vec<(String, Bucket)>, key: &String) -> (r: Option<usize>)
    ensures
        match r {
            Some(p) => p < ix@.len() && index_view_of(ix@)[p as int].0 == key@
                && forall|j: int| 0 <= j < p ==> index_view_of(ix@)[j].0 != key@,
            None => forall|j: int| 0 <= j < ix@.len() ==> index_view_of(ix@)[j].0 != key@,
        },
{
    let mut i: usize = 0;
    while i < ix.len()
        invariant
            i <= ix@.len(),
            forall|j: int| 0 <= j < i ==> index_view_of(ix@)[j].0 != key@,
        decreases ix@.len() - i,
    {
        if ix[i].0 == *key {
            assert(index_view_of(ix@)[i as int].0 == key@);
            return Some(i);
        }
        i += 1;
    }
    None
}

/// The position of encoded value `value` in a field's buckets, if present.
fn find_value(b: &Bucket, value: &Vec<u8>) -> (r: Option<usize>)
    ensures
        match r {
            Some(q) => q < b@.len() && bucket_view_of(b@)[q as int].0 == value@
                && forall|j: int| 0 <= j < q ==> bucket_view_of(b@)[j].0 != value@,
            None => forall|j: int| 0 <= j < b@.len() ==> bucket_view_of(b@)[j].0 != value@,
        },
{
    let mut i: usize = 0;
    while i < b.len()
        invariant
            i <= b@.len(),
            forall|j: int| 0 <= j < i ==> bucket_view_of(b@)[j].0 != value@,
        decreases b@.len() - i,
    {
        if bytes_eq(&b[i].0, value) {
            assert(bucket_view_of(b@)[i as int].0 == value@);
            return Some(i);
        }
        i += 1;
    }
    None
}

/// The bucket with entry `q`'s ids replaced.
fn bucket_with_entry(b: &Bucket, q: usize, ids: Vec<usize>) -> (r: Bucket)
    requires
        q < b@.len(),
    ensures
        bucket_view_of(r@)
            == bucket_view_of(b@).update(q as int, (bucket_view_of(b@)[q as int].0, ids@)),
{
    let mut r: Bucket = Vec::new();
    let mut i: usize = 0;
    let ghost tgt = bucket_view_of(b@).update(q as int, (bucket_view_of(b@)[q as int].0, ids@));
    proof {
        assert(bucket_view_of(r@) =~~= tgt.take(0));
    }
    let mut ids_opt = Some(ids);
    while i < b.len()
        invariant
            q < b@.len(),
            i <= b@.len(),
            i <= q ==> (ids_opt matches Some(x) && x@ == tgt[q as int].1),
            i > q ==> ids_opt is None,
            tgt == bucket_view_of(b@).update(q as int, (bucket_view_of(b@)[q as int].0, tgt[q as int].1)),
            tgt.len() == b@.len(),
            bucket_view_of(r@) == tgt.take(i as int),
        decreases b@.len() - i,
    {
        let ghost rv_old = r@;
        let ghost pushed_ids: Seq<usize> = if i == q { tgt[q as int].1 } else { b@[i as int].1@ };
        if i == q {
            let ids_v = match ids_opt {
                Some(x) => x,
                None => unreached(),
            };
            ids_opt = None;
            r.push((copy_bytes(&b[i].0), ids_v));
        } else {
            r.push((copy_bytes(&b[i].0), copy_ids(&b[i].1)));
        }
        proof {
            assert(bucket_view_of(rv_old) == tgt.take(i as int));
            assert(bucket_view_of(rv_old).len() == rv_old.len());
            assert(tgt.take(i as int).len() == i as int);
            assert(rv_old.len() == i as int);
            assert(r@.len() == i + 1);
            assert(r@[i as int].0@ == b@[i as int].0@);
            assert(r@[i as int].1@ == pushed_ids);
            assert forall|j: int| 0 <= j < r@.len()
                implies bucket_view_of(r@)[j] == tgt.take(i as int + 1)[j] by {
                if j < i as int {
                    assert(r@[j] == rv_old[j]);
                    assert(bucket_view_of(rv_old)[j] == tgt.take(i as int)[j]);
                } else {
                    assert(tgt[j] == (bucket_view_of(b@)[j].0, pushed_ids));
                }
            }
            assert(bucket_view_of(r@) =~~= tgt.take(i as int + 1));
        }
        i += 1;
    }
    proof {
        assert(bucket_view_of(r@) =~~= tgt);
    }
    r
}

/// The bucket with entry `q` dropped.
fn bucket_without_entry(b: &Bucket, q: usize) -> (r: Bucket)
    requires
        q < b@.len(),
    ensures
        bucket_view_of(r@) == bucket_view_of(b@).remove(q as int),
{
    let mut r: Bucket = Vec::new();
    let mut i: usize = 0;
    let ghost tgt = bucket_view_of(b@).remove(q as int);
    while i < b.len()
        invariant
            q < b@.len(),
            i <= b@.len(),
            tgt == bucket_view_of(b@).remove(q as int),
            i <= q ==> bucket_view_of(r@) =~~= tgt.take(i as int),
            i > q ==> bucket_view_of(r@) =~~= tgt.take(i as int - 1),
        decreases b@.len() - i,
    {
        if i != q {
            r.push((copy_bytes(&b[i].0), copy_ids(&b[i].1)));
            proof {
                if i < q {
                    assert(tgt[i as int] == bucket_view_of(b@)[i as int]);
                    assert(bucket_view_of(r@) =~~= tgt.take(i as int + 1));
                } else {
                    assert(tgt[i as int - 1] == bucket_view_of(b@)[i as int]);
                    assert(bucket_view_of(r@) =~~= tgt.take(i as int));
                }
            }
        }
        i += 1;
    }
    proof {
        assert(bucket_view_of(r@) =~~= tgt);
    }
    r
}

/// Drop document `page` from field `key`'s bucket for `value`; a bucket
/// left empty is removed. Missing field or value buckets are left alone
/// (nothing records the document there).
pub(crate) fn remove_index(ix: &mut Vec<(String, Bucket)>, key: &str, value: &Vec<u8>, page: usize)
    requires
        wf_index(index_view_of(old(ix)@)),
    ensures
        wf_index(index_view_of(final(ix)@)),
        forall|f: Seq<char>, v: Seq<u8>, id: usize|
            #![trigger in_bucket(index_view_of(final(ix)@), f, v, id)]
            #![trigger in_bucket(index_view_of(old(ix)@), f, v, id)]
            in_bucket(index_view_of(final(ix)@), f, v, id)
                <==> (in_bucket(index_view_of(old(ix)@), f, v, id)
                    && !(f == key@ && v == value@ && id == page)),
{
    let k: String = key.to_owned();
    let ghost ixv = index_view_of(ix@);
    let p = match find_field(ix, &k) {
        Some(p) => p,
        None => {
            proof {
                lemma_assoc_prefix_miss(ixv, key@, ixv.len() as int);
                assert forall|v: Seq<u8>, id: usize|
                    !in_bucket(ixv, key@, v, id) by {
                    assert(bucket_ids(ixv, key@, v) =~~= Seq::<usize>::empty());
                }
            }
            return;
        },
    };
    let ghost bv = bucket_view_of(ix@[p as int].1@);
    proof {
        lemma_assoc_get_at(ixv, p as int);
        assert(assoc_get(ixv, key@) == Some(bv));
        assert(wf_bucket(bv));
    }
    let q = match find_value(&ix[p].1, value) {
        Some(q) => q,
        None => {
            proof {
                lemma_assoc_prefix_miss(bv, value@, bv.len() as int);
                assert forall|id: usize| !in_bucket(ixv, key@, value@, id) by {
                    assert(bucket_ids(ixv, key@, value@) =~~= Seq::<usize>::empty());
                }
            }
            return;
        },
    };
    proof {
        lemma_assoc_get_at(bv, q as int);
        assert(assoc_get(bv, value@) == Some(bv[q as int].1));
    }
    let new_ids = remove_id(&ix[p].1[q].1, page);
    let name = ix[p].0.clone();
    if new_ids.len() == 0 {
        let nb = bucket_without_entry(&ix[p].1, q);
        ix.set(p, (name, nb));
        proof {
            let nbv = bucket_view_of(nb@);
            assert(nbv == bv.remove(q as int));
            lemma_assoc_remove(bv, q as int);
            assert(index_view_of(ix@) =~~= ixv.update(p as int, (key@, nbv)));
            lemma_assoc_update(ixv, p as int, key@, nbv);
            assert(wf_bucket(nbv)) by {
                assert(forall|x: int| 0 <= x < q ==> nbv[x] == bv[x]);
                assert(forall|x: int| q <= x < nbv.len() ==> nbv[x] == bv[x + 1]);
            }
            assert(wf_index(index_view_of(ix@))) by {
                assert(forall|x: int| 0 <= x < ixv.len() && x != p
                    ==> index_view_of(ix@)[x] == ixv[x]);
            }
            assert forall|f: Seq<char>, v: Seq<u8>, id: usize|
                in_bucket(index_view_of(ix@), f, v, id)
                    <==> (in_bucket(ixv, f, v, id)
                        && !(f == key@ && v == value@ && id == page)) by {
                let newv = index_view_of(ix@);
                if f == key@ {
                    assert(assoc_get(newv, f) == Some(nbv));
                    if v == value@ {
                        assert(assoc_get(nbv, v) is None);
                        assert(bucket_ids(newv, f, v) =~~= Seq::<usize>::empty());
                        assert(forall|j: int| 0 <= j < bv[q as int].1.len()
                            ==> bv[q as int].1[j] == page);
                        assert forall|idx: usize| bv[q as int].1.contains(idx)
                            implies idx == page by {}
                    } else {
                        assert(assoc_get(nbv, v) == assoc_get(bv, v));
                    }
                } else {
                    assert(assoc_get(newv, f) == assoc_get(ixv, f));
                }
            }
        }
    } else {
        let ghost nidsv = new_ids@;
        let nb = bucket_with_entry(&ix[p].1, q, new_ids);
        ix.set(p, (name, nb));
        proof {
            let nbv = bucket_view_of(nb@);
            assert(bv[q as int].0 == value@);
            assert(nbv =~~= bv.update(q as int, (value@, nidsv)));
            lemma_assoc_update(bv, q as int, value@, nidsv);
            assert(index_view_of(ix@) =~~= ixv.update(p as int, (key@, nbv)));
            lemma_assoc_update(ixv, p as int, key@, nbv);
            assert(wf_bucket(nbv)) by {
                assert(forall|x: int| 0 <= x < nbv.len() && x != q ==> nbv[x] == bv[x]);
            }
            assert(wf_index(index_view_of(ix@))) by {
                assert(forall|x: int| 0 <= x < ixv.len() && x != p
                    ==> index_view_of(ix@)[x] == ixv[x]);
            }
            assert forall|f: Seq<char>, v: Seq<u8>, id: usize|
                in_bucket(index_view_of(ix@), f, v, id)
                    <==> (in_bucket(ixv, f, v, id)
                        && !(f == key@ && v == value@ && id == page)) by {
                let newv = index_view_of(ix@);
                if f == key@ {
                    assert(assoc_get(newv, f) == Some(nbv));
                    if v == value@ {
                        assert(assoc_get(nbv, v) == Some(nidsv));
                    } else {
                        assert(assoc_get(nbv, v) == assoc_get(bv, v));
                    }
                } else {
                    assert(assoc_get(newv, f) == assoc_get(ixv, f));
                }
            }
        }
    }
}

/// Record document `page` under field `key`, value `value`, creating the
/// field entry or the value bucket as needed; an id already recorded
/// there is not repeated.
pub(crate) fn insert_index(ix: &mut Vec<(String, Bucket)>, key: &str, value: &Vec<u8>, page: usize)
    requires
        wf_index(index_view_of(old(ix)@)),
    ensures
        wf_index(index_view_of(final(ix)@)),
        forall|f: Seq<char>, v: Seq<u8>, id: usize|
            #![trigger in_bucket(index_view_of(final(ix)@), f, v, id)]
            #![trigger in_bucket(index_view_of(old(ix)@), f, v, id)]
            in_bucket(index_view_of(final(ix)@), f, v, id)
                <==> (in_bucket(index_view_of(old(ix)@), f, v, id)
                    || (f == key@ && v == value@ && id == page)),
{
    let k: String = key.to_owned();
    let ghost ixv = index_view_of(ix@);
    let p = match find_field(ix, &k) {
        Some(p) => p,
        None => {
            let mut ids: Vec<usize> = Vec::new();
            ids.push(page);
            let mut nb: Bucket = Vec::new();
            nb.push((copy_bytes(value), ids));
            ix.push((k, nb));
            proof {
                let nbv = bucket_view_of(nb@);
                assert(nbv =~~= seq![(value@, seq![page])]);
                lemma_assoc_prefix_miss(ixv, key@, ixv.len() as int);
                assert(index_view_of(ix@) =~~= ixv.push((key@, nbv)));
                lemma_assoc_push(ixv, key@, nbv);
                assert(wf_bucket(nbv)) by {
                    assert(nbv.len() == 1);
                    assert(nbv[0].1 =~~= seq![page]);
                }
                assert(wf_index(index_view_of(ix@))) by {
                    assert(forall|x: int| 0 <= x < ixv.len()
                        ==> index_view_of(ix@)[x] == ixv[x]);
                }
                assert(assoc_get(nbv, value@) == Some(seq![page]));
                assert forall|f: Seq<char>, v: Seq<u8>, id: usize|
                    in_bucket(index_view_of(ix@), f, v, id)
                        <==> (in_bucket(ixv, f, v, id)
                            || (f == key@ && v == value@ && id == page)) by {
                    let newv = index_view_of(ix@);
                    if f == key@ {
                        assert(assoc_get(ixv, f) is None);
                        assert(bucket_ids(ixv, f, v) =~~= Seq::<usize>::empty());
                        assert(assoc_get(newv, f) == Some(nbv));
                        if v == value@ {
                            assert(bucket_ids(newv, f, v) == seq![page]);
                            assert(seq![page].contains(id) <==> id == page) by {
                                if seq![page].contains(id) {
                                    let j = choose|j: int| 0 <= j < 1 && seq![page][j] == id;
                                }
                                if id == page {
                                    assert(seq![page][0] == id);
                                }
                            }
                        } else {
                            assert(assoc_get(nbv, v) is None) by {
                                assert(nbv[0].0 == value@);
                                lemma_assoc_prefix_miss(nbv, v, 1);
                            }
                            assert(bucket_ids(newv, f, v) =~~= Seq::<usize>::empty());
                        }
                    } else {
                        assert(assoc_get(newv, f) == assoc_get(ixv, f));
                    }
                }
            }
            return;
        },
    };
    let ghost bv = bucket_view_of(ix@[p as int].1@);
    proof {
        lemma_assoc_get_at(ixv, p as int);
        assert(assoc_get(ixv, key@) == Some(bv));
        assert(wf_bucket(bv));
    }
    let name = ix[p].0.clone();
    match find_value(&ix[p].1, value) {
        Some(q) => {
            proof {
                lemma_assoc_get_at(bv, q as int);
                assert(assoc_get(bv, value@) == Some(bv[q as int].1));
            }
            if contains_id(&ix[p].1[q].1, page) {
                proof {
                    assert(bucket_ids(ixv, key@, value@) == bv[q as int].1);
                    assert(bv[q as int].1.contains(page));
                    assert(in_bucket(ixv, key@, value@, page));
                }
                return;
            }
            let mut new_ids = copy_ids(&ix[p].1[q].1);
            let ghost ids_old = new_ids@;
            new_ids.push(page);
            proof {
                assert(new_ids@ == ids_old.push(page));
                assert(dupfree(new_ids@)) by {
                    assert(forall|x: int| 0 <= x < ids_old.len() ==> new_ids@[x] == ids_old[x]);
                    assert(new_ids@[ids_old.len() as int] == page);
                    assert(!ids_old.contains(page));
                }
            }
            let nb = bucket_with_entry(&ix[p].1, q, new_ids);
            ix.set(p, (name, nb));
            proof {
                let nbv = bucket_view_of(nb@);
                assert(bv[q as int].0 == value@);
                assert(nbv =~~= bv.update(q as int, (value@, ids_old.push(page))));
                lemma_assoc_update(bv, q as int, value@, ids_old.push(page));
                assert(index_view_of(ix@) =~~= ixv.update(p as int, (key@, nbv)));
                lemma_assoc_update(ixv, p as int, key@, nbv);
                assert(wf_bucket(nbv)) by {
                    assert(forall|x: int| 0 <= x < nbv.len() && x != q ==> nbv[x] == bv[x]);
                }
                assert(wf_index(index_view_of(ix@))) by {
                    assert(forall|x: int| 0 <= x < ixv.len() && x != p
                        ==> index_view_of(ix@)[x] == ixv[x]);
                }
                assert forall|f: Seq<char>, v: Seq<u8>, id: usize|
                    in_bucket(index_view_of(ix@), f, v, id)
                        <==> (in_bucket(ixv, f, v, id)
                            || (f == key@ && v == value@ && id == page)) by {
                    let newv = index_view_of(ix@);
                    if f == key@ {
                        assert(assoc_get(newv, f) == Some(nbv));
                        if v == value@ {
                            assert(assoc_get(nbv, v) == Some(ids_old.push(page)));
                            assert(forall|x: int| 0 <= x < ids_old.len()
                                ==> ids_old.push(page)[x] == ids_old[x]);
                            assert(ids_old.push(page)[ids_old.len() as int] == page);
                            assert forall|idx: usize| ids_old.push(page).contains(idx)
                                implies (ids_old.contains(idx) || idx == page) by {
                                let j = choose|j: int| 0 <= j < ids_old.push(page).len()
                                    && ids_old.push(page)[j] == idx;
                                if j < ids_old.len() {
                                    assert(ids_old[j] == idx);
                                }
                            }
                        } else {
                            assert(assoc_get(nbv, v) == assoc_get(bv, v));
                        }
                    } else {
                        assert(assoc_get(newv, f) == assoc_get(ixv, f));
                    }
                }
            }
        },
        None => {
            proof {
                lemma_assoc_prefix_miss(bv, value@, bv.len() as int);
                assert(assoc_get(bv, value@) is None);
            }
            let mut ids: Vec<usize> = Vec::new();
            ids.push(page);
            let mut nb = copy_bucket(&ix[p].1);
            nb.push((copy_bytes(value), ids));
            ix.set(p, (name, nb));
            proof {
                let nbv = bucket_view_of(nb@);
                assert(nbv =~~= bv.push((value@, seq![page])));
                lemma_assoc_push(bv, value@, seq![page]);
                assert(index_view_of(ix@) =~~= ixv.update(p as int, (key@, nbv)));
                lemma_assoc_update(ixv, p as int, key@, nbv);
                assert(wf_bucket(nbv)) by {
                    assert(forall|x: int| 0 <= x < bv.len() ==> nbv[x] == bv[x]);
                    assert(nbv[bv.len() as int].1 =~~= seq![page]);
                }
                assert(wf_index(index_view_of(ix@))) by {
                    assert(forall|x: int| 0 <= x < ixv.len() && x != p
                        ==> index_view_of(ix@)[x] == ixv[x]);
                }
                assert forall|f: Seq<char>, v: Seq<u8>, id: usize|
                    in_bucket(index_view_of(ix@), f, v, id)
                        <==> (in_bucket(ixv, f, v, id)
                            || (f == key@ && v == value@ && id == page)) by {
                    let newv = index_view_of(ix@);
                    if f == key@ {
                        assert(assoc_get(newv, f) == Some(nbv));
                        if v == value@ {
                            assert(assoc_get(nbv, v) == Some(seq![page]));
                            assert(bucket_ids(ixv, f, v) =~~= Seq::<usize>::empty());
                            assert(seq![page].contains(id) <==> id == page) by {
                                if seq![page].contains(id) {
                                    let j = choose|j: int| 0 <= j < 1 && seq![page][j] == id;
                                }
                                if id == page {
                                    assert(seq![page][0] == id);
                                }
                            }
                        } else {
                            assert(assoc_get(nbv, v) == assoc_get(bv, v));
                        }
                    } else {
                        assert(assoc_get(newv, f) == assoc_get(ixv, f));
                    }
                }
            }
        },
    }
}

/// An exact (view-level) copy of a field's buckets.
fn copy_bucket(b: &Bucket) -> (r: Bucket)
    ensures
        bucket_view_of(r@) == bucket_view_of(b@),
{
    let mut r: Bucket = Vec::new();
    let mut i: usize = 0;
    proof {
        assert(bucket_view_of(r@) =~~= bucket_view_of(b@).take(0));
    }
    while i < b.len()
        invariant
            i <= b@.len(),
            bucket_view_of(r@) == bucket_view_of(b@).take(i as int),
        decreases b@.len() - i,
    {
        let c0 = copy_bytes(&b[i].0);
        let c1 = copy_ids(&b[i].1);
        let ghost rv_old = r@;
        r.push((c0, c1));
        proof {
            assert(r@ == rv_old.push((c0, c1)));
            assert(bucket_view_of(rv_old) == bucket_view_of(b@).take(i as int));
            assert(bucket_view_of(rv_old).len() == rv_old.len());
            assert(bucket_view_of(b@).take(i as int).len() == i as int);
            assert(rv_old.len() == i as int);
            assert forall|j: int| 0 <= j < r@.len()
                implies bucket_view_of(r@)[j] == bucket_view_of(b@).take(i as int + 1)[j] by {
                if j < rv_old.len() {
                    assert(r@[j] == rv_old[j]);
                    assert(bucket_view_of(rv_old)[j] == bucket_view_of(b@).take(i as int)[j]);
                } else {
                    assert(r@[j] == (c0, c1));
                    assert(c0@ == b@[i as int].0@);
                    assert(c1@ == b@[i as int].1@);
                }
            }
            assert(bucket_view_of(r@) =~~= bucket_view_of(b@).take(i as int + 1));
        }
        i += 1;
    }
    proof {
        assert(bucket_view_of(r@) =~~= bucket_view_of(b@));
    }
    r
}

/// The ids currently recorded under field `key` and encoded value `value`.
pub(crate) fn lookup_ids(ix: &Vec<(String, Bucket)>, key: &String, value: &Vec<u8>) -> (r: Vec<usize>)
    ensures
        r@ == bucket_ids(index_view_of(ix@), key@, value@),
{
    let ghost ixv = index_view_of(ix@);
    let p = match find_field(ix, key) {
        Some(p) => p,
        None => {
            proof {
                lemma_assoc_prefix_miss(ixv, key@, ixv.len() as int);
                assert(bucket_ids(ixv, key@, value@) =~~= Seq::<usize>::empty());
            }
            return Vec::new();
        },
    };
    proof {
        lemma_assoc_get_at_helper(ixv, p as int, key@);
    }
    let q = match find_value(&ix[p].1, value) {
        Some(q) => q,
        None => {
            proof {
                let bv = bucket_view_of(ix@[p as int].1@);
                lemma_assoc_prefix_miss(bv, value@, bv.len() as int);
                assert(bucket_ids(ixv, key@, value@) =~~= Seq::<usize>::empty());
            }
            return Vec::new();
        },
    };
    proof {
        let bv = bucket_view_of(ix@[p as int].1@);
        lemma_assoc_get_at_helper(bv, q as int, value@);
    }
    copy_ids(&ix[p].1[q].1)
}

/// Looking up a key found by position yields that position's value, even
/// without global uniqueness, provided the earlier keys miss it.
proof fn lemma_assoc_get_at_helper<K, V>(s: Seq<(K, V)>, i: int, k: K)
    requires
        0 <= i < s.len(),
        s[i].0 == k,
        forall|j: int| 0 <= j < i ==> s[j].0 != k,
    ensures
        assoc_get(s, k) == Some(s[i].1),
{
    lemma_assoc_prefix_miss(s, k, i);
}

} // verus!
