use pagerdb::pager::{Pager, PagerError};
use pagerdb::query::{Isolator, Query};

fn enc_str(s: &str) -> Vec<u8> {
    bincode::encode_to_vec(s.to_string(), bincode::config::standard()).unwrap()
}

fn enc_int(i: i32) -> Vec<u8> {
    bincode::encode_to_vec(i, bincode::config::standard()).unwrap()
}

fn dec_str(b: &[u8]) -> String {
    bincode::decode_from_slice::<String, _>(b, bincode::config::standard()).unwrap().0
}

#[test]
fn insert_then_query() {
    let mut pager = Pager::new(Vec::new()).unwrap();

    let mut a = pager.doc().unwrap();
    a.insert("name", enc_str("flora"));
    a.insert("age", enc_int(19));
    a.insert("likes", enc_str("cats"));

    let mut b = pager.doc().unwrap();
    b.insert("name", enc_str("sarah"));
    b.insert("age", enc_int(21));
    b.insert("likes", enc_str("dogs"));

    let mut c = pager.doc().unwrap();
    c.insert("name", enc_str("jane"));
    c.insert("age", enc_int(20));
    c.insert("likes", enc_str("cats"));

    let a_id = a.id();
    let c_id = c.id();
    pager.write_document(a).unwrap();
    pager.write_document(b).unwrap();
    pager.write_document(c).unwrap();

    let query = Query(vec![("likes".to_string(), Isolator::Eq("cats".to_string()))]);
    let results = pager.query(query).unwrap();
    println!("{:?}", results);

    assert_eq!(results.len(), 2);
    let mut ids: Vec<usize> = results.iter().map(|d| d.id()).collect();
    ids.sort();
    let mut expected = vec![a_id, c_id];
    expected.sort();
    assert_eq!(ids, expected);
    let names: Vec<String> = results.iter().map(|d| dec_str(d.get("name").unwrap())).collect();
    assert!(names.contains(&"flora".to_string()));
    assert!(names.contains(&"jane".to_string()));
    assert!(!names.contains(&"sarah".to_string()));
}

#[test]
fn round_trip_small() {
    let mut pager = Pager::new(Vec::new()).unwrap();
    let mut d = pager.doc().unwrap();
    d.insert("name", enc_str("flora"));
    d.insert("age", enc_int(19));
    let id = d.id();
    pager.write_document(d).unwrap();

    let back = pager.read_document(id).unwrap();
    assert_eq!(back.id(), id);
    assert_eq!(back.get("name"), Some(&enc_str("flora")));
    assert_eq!(back.get("age"), Some(&enc_int(19)));
    assert_eq!(back.get("missing"), None);
}

#[test]
fn round_trip_multi_span() {
    let mut pager = Pager::new(Vec::new()).unwrap();
    let mut d = pager.doc().unwrap();
    let big: Vec<u8> = (0..10000u32).map(|i| (i % 251) as u8).collect();
    let payload = bincode::encode_to_vec(&big, bincode::config::standard()).unwrap();
    d.insert("blob", payload.clone());
    d.insert("tag", enc_str("big"));
    let id = d.id();
    pager.write_document(d).unwrap();

    let back = pager.read_document(id).unwrap();
    assert_eq!(back.get("blob"), Some(&payload));
    assert_eq!(back.get("tag"), Some(&enc_str("big")));
    // more than one page of content means more than one span
    assert!(back.metadata.spans.len() >= 2);
}

#[test]
fn stable_reuse_same_size() {
    let mut pager = Pager::new(Vec::new()).unwrap();
    let mut d = pager.doc().unwrap();
    d.insert("name", enc_str("flora"));
    let id = d.id();
    pager.write_document(d).unwrap();

    let first = pager.read_document(id).unwrap();
    let spans_before = first.metadata.spans.clone();

    // same serialized size: a string of the same length
    let mut again = first;
    again.insert("name", enc_str("clara"));
    pager.write_document(again).unwrap();

    let second = pager.read_document(id).unwrap();
    assert_eq!(second.metadata.spans, spans_before);
    assert_eq!(second.get("name"), Some(&enc_str("clara")));
}

#[test]
fn allocation_is_unique() {
    let mut pager = Pager::new(Vec::new()).unwrap();
    let a = pager.doc().unwrap();
    let b = pager.doc().unwrap();
    let c = pager.doc().unwrap();
    assert_ne!(a.id(), b.id());
    assert_ne!(a.id(), c.id());
    assert_ne!(b.id(), c.id());
    // page 0 is the header, page 1 the index document
    assert!(a.id() >= 2);
}

#[test]
fn shrink_reclaims_pages() {
    let mut pager = Pager::new(Vec::new()).unwrap();
    let mut d = pager.doc().unwrap();
    let big: Vec<u8> = vec![7u8; 6000];
    d.insert("blob", bincode::encode_to_vec(&big, bincode::config::standard()).unwrap());
    let id = d.id();
    pager.write_document(d).unwrap();

    let full = pager.read_document(id).unwrap();
    assert_eq!(full.metadata.spans.len(), 2);
    let second_page = match full.metadata.spans[1] {
        pagerdb::pager::document::Span::Allocated { page, .. } => page,
        _ => panic!("span still unallocated"),
    };

    // rewrite with one span's worth of content: the trailing page is freed
    let mut small = pager.read_document(id).unwrap();
    small.insert("blob", enc_str("tiny"));
    pager.write_document(small).unwrap();

    let shrunk = pager.read_document(id).unwrap();
    assert_eq!(shrunk.metadata.spans.len(), 1);

    // a freed page is preferred over growing the file
    let next = pager.doc().unwrap();
    assert_eq!(next.id(), second_page);
}

#[test]
fn index_tracks_current_content() {
    let mut pager = Pager::new(Vec::new()).unwrap();
    let mut d = pager.doc().unwrap();
    d.insert("likes", enc_str("cats"));
    let id = d.id();
    pager.write_document(d).unwrap();

    let cats = Query(vec![("likes".to_string(), Isolator::Eq("cats".to_string()))]);
    let found = pager.query(cats).unwrap();
    assert_eq!(found.len(), 1);
    assert_eq!(found[0].id(), id);

    // change the value: the old bucket must no longer list the document
    let mut changed = pager.read_document(id).unwrap();
    changed.insert("likes", enc_str("dogs"));
    pager.write_document(changed).unwrap();

    let cats = Query(vec![("likes".to_string(), Isolator::Eq("cats".to_string()))]);
    assert_eq!(pager.query(cats).unwrap().len(), 0);
    let dogs = Query(vec![("likes".to_string(), Isolator::Eq("dogs".to_string()))]);
    let found = pager.query(dogs).unwrap();
    assert_eq!(found.len(), 1);
    assert_eq!(found[0].id(), id);

    // remove the field: no query matches it any more
    let current = pager.read_document(id).unwrap();
    let mut without = pagerdb::pager::document::Document::new(id);
    without.metadata = current.metadata.clone();
    without.insert("other", enc_str("x"));
    pager.write_document(without).unwrap();

    let dogs = Query(vec![("likes".to_string(), Isolator::Eq("dogs".to_string()))]);
    assert_eq!(pager.query(dogs).unwrap().len(), 0);
}

#[test]
fn corrupt_file_is_rejected() {
    let bogus = vec![1u8, 2, 3, 4, 5, 6, 7, 8];
    assert_eq!(Pager::new(bogus).err(), Some(PagerError::CorruptHeader));

    let short = vec![0xdeu8];
    assert_eq!(Pager::new(short).err(), Some(PagerError::CorruptHeader));

    // right magic, but a header that cannot describe this image
    let mut junk = vec![0xdeu8, 0xad, 0xbe, 0xef];
    junk.extend(vec![0xffu8; 400]);
    assert_eq!(Pager::new(junk).err(), Some(PagerError::Decode));
}

#[test]
fn unknown_id_is_not_found() {
    let mut pager = Pager::new(Vec::new()).unwrap();
    assert_eq!(pager.read_document(99).err(), Some(PagerError::NotFound));
    let d = pager.doc().unwrap();
    // allocated but never written: still not found
    assert_eq!(pager.read_document(d.id()).err(), Some(PagerError::NotFound));
}

#[test]
fn header_overflow_reports_too_large() {
    // enough reclaimable pages that the free list outgrows the fixed
    // header block: the next allocation must refuse to persist it
    let mut pager = Pager::new(Vec::new()).unwrap();
    let mut d = pager.doc().unwrap();
    let big: Vec<u8> = vec![9u8; 295 * 4096];
    d.insert("blob", bincode::encode_to_vec(&big, bincode::config::standard()).unwrap());
    let id = d.id();
    pager.write_document(d).unwrap();

    let mut small = pager.read_document(id).unwrap();
    small.insert("blob", enc_str("tiny"));
    pager.write_document(small).unwrap();

    assert_eq!(pager.doc().err(), Some(PagerError::TooLarge));
}

#[test]
fn image_reopens_with_index() {
    let mut pager = Pager::new(Vec::new()).unwrap();
    let mut d = pager.doc().unwrap();
    d.insert("name", enc_str("flora"));
    d.insert("likes", enc_str("cats"));
    let id = d.id();
    pager.write_document(d).unwrap();

    let bytes = pager.image();
    assert_eq!(&bytes[0..4], &[0xde, 0xad, 0xbe, 0xef]);

    let reopened = Pager::new(bytes).unwrap();
    let q = Query(vec![("likes".to_string(), Isolator::Eq("cats".to_string()))]);
    let found = reopened.query(q).unwrap();
    assert_eq!(found.len(), 1);
    assert_eq!(found[0].id(), id);
    assert_eq!(found[0].get("name"), Some(&enc_str("flora")));
}

#[test]
fn insert_overwrites_in_place() {
    let mut d = pagerdb::pager::document::Document::new(7);
    d.insert("k", enc_str("one"));
    d.insert("k", enc_str("two"));
    assert_eq!(d.get("k"), Some(&enc_str("two")));
    assert_eq!(d.content.len(), 1);
    assert_eq!(d.id(), 7);
}

#[test]
fn query_returns_each_match_once() {
    // a document matching two queried fields appears once in the result set
    let mut pager = Pager::new(Vec::new()).unwrap();
    let mut d = pager.doc().unwrap();
    d.insert("name", enc_str("flora"));
    d.insert("likes", enc_str("cats"));
    let id = d.id();
    pager.write_document(d).unwrap();

    let q = Query(vec![
        ("name".to_string(), Isolator::Eq("flora".to_string())),
        ("likes".to_string(), Isolator::Eq("cats".to_string())),
    ]);
    let found = pager.query(q).unwrap();
    assert_eq!(found.len(), 1);
    assert_eq!(found[0].id(), id);
}

#[test]
fn query_multiple_fields_unions() {
    let mut pager = Pager::new(Vec::new()).unwrap();
    let mut a = pager.doc().unwrap();
    a.insert("name", enc_str("flora"));
    let a_id = a.id();
    pager.write_document(a).unwrap();
    let mut b = pager.doc().unwrap();
    b.insert("likes", enc_str("dogs"));
    let b_id = b.id();
    pager.write_document(b).unwrap();

    let q = Query(vec![
        ("name".to_string(), Isolator::Eq("flora".to_string())),
        ("likes".to_string(), Isolator::Eq("dogs".to_string())),
    ]);
    let found = pager.query(q).unwrap();
    let mut ids: Vec<usize> = found.iter().map(|d| d.id()).collect();
    ids.sort();
    let mut expected = vec![a_id, b_id];
    expected.sort();
    assert_eq!(ids, expected);
}
