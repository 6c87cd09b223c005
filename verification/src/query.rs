use vstd::prelude::*;

verus! {

/// The string an equality predicate compares against.
pub open spec fn iso_str(i: Isolator) -> Seq<char> {
    match i {
        Isolator::Eq(s) => s@,
    }
}

/// A query as a mathematical sequence of (field name, compared string).
pub open spec fn query_view(q: Seq<(String, Isolator)>) -> Seq<(Seq<char>, Seq<char>)> {
    Seq::new(q.len(), |i: int| (q[i].0@, iso_str(q[i].1)))
}

/// An equality predicate on one field's encoded value.
pub enum Isolator {
    Eq(String),
}

/// A query: a list of (field name, predicate) pairs.
///
/// A document qualifies when any one of the queried fields matches
/// (disjunctive combining across the queried fields).
pub struct Query(pub Vec<(String, Isolator)>);

} // verus!
