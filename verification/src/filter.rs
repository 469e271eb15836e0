//! Field filtering for worker-side body transforms: which top-level fields
//! of a document a worker keeps.  The decision is verified here; the
//! document surgery itself is the worker's.

use vstd::prelude::*;
use crate::codec::list_view;
use crate::registry::bytes_eq;

verus! {

broadcast use vstd::std_specs::vec::axiom_spec_len;

/// Keep only the named fields, or drop exactly the named fields.
#[derive(Debug)]
pub enum FieldFilter {
    Allow(Vec<Vec<u8>>),
    Deny(Vec<Vec<u8>>),
}

/// Does the filter keep a top-level field of this name?
pub open spec fn spec_allows(f: &FieldFilter, name: Seq<u8>) -> bool {
    match f {
        FieldFilter::Allow(l) => list_view(l@).contains(name),
        FieldFilter::Deny(l) => !list_view(l@).contains(name),
    }
}

fn list_contains(l: &Vec<Vec<u8>>, name: &[u8]) -> (r: bool)
    ensures
        r == list_view(l@).contains(name@),
{
    let mut i: usize = 0;
    while i < l.len()
        invariant
            i <= l@.len(),
            forall|j: int| 0 <= j < i ==> list_view(l@)[j] != name@,
        decreases l@.len() - i,
    {
        if bytes_eq(l[i].as_slice(), name) {
            proof {
                assert(list_view(l@)[i as int] == name@);
            }
            return true;
        }
        proof {
            assert(list_view(l@)[i as int] == l@[i as int]@);
        }
        i = i + 1;
    }
    proof {
        if list_view(l@).contains(name@) {
            let w = choose|w: int| 0 <= w < list_view(l@).len() && list_view(l@)[w] == name@;
            assert(list_view(l@)[w] != name@);
        }
    }
    false
}

impl FieldFilter {
    /// Whether a top-level field of this name survives the filter: under
    /// `Allow`, exactly the listed names; under `Deny`, exactly the others.
    pub fn allows(&self, name: &[u8]) -> (r: bool)
        ensures
            r == spec_allows(self, name@),
    {
        match self {
            FieldFilter::Allow(l) => list_contains(l, name),
            FieldFilter::Deny(l) => !list_contains(l, name),
        }
    }
}

} // verus!
