//! Snapshot-isolated document iterator.

use crate::error::Result;
use vstd::prelude::*;

verus! {

/// Yields the documents of one snapshot in order, tagged with the snapshot's
/// revision.
pub struct DocIterator<D> {
    /// The documents not yet yielded, last one first.
    pending: Vec<D>,
    revision: u64,
}

impl<D> DocIterator<D> {
    /// The documents still to be yielded, in yield order.
    pub closed spec fn remaining(&self) -> Seq<D> {
        self.pending@.reverse()
    }

    pub closed spec fn spec_revision(&self) -> u64 {
        self.revision
    }

    /// An iterator over `docs` taken at `revision`.
    pub fn new(docs: Vec<D>, revision: u64) -> (r: Self)
        ensures
            r.remaining() == docs@,
            r.spec_revision() == revision,
    {
        let mut docs = docs;
        let ghost original = docs@;
        let mut pending: Vec<D> = Vec::new();
        while docs.len() > 0
            invariant
                docs@ + pending@.reverse() == original,
            decreases docs@.len(),
        {
            let ghost before = docs@;
            let doc = docs.pop().unwrap();
            proof {
                assert(docs@.push(doc) == before);
            }
            pending.push(doc);
            proof {
                assert(pending@.reverse() =~= seq![doc] + pending@.drop_last().reverse());
                assert(docs@ + pending@.reverse() =~= before + pending@.drop_last().reverse());
            }
        }
        proof {
            assert(pending@.reverse() =~= original);
        }
        Self { pending, revision }
    }

    /// The revision of the snapshot being iterated.
    pub fn revision(&self) -> (r: u64)
        ensures
            r == self.spec_revision(),
    {
        self.revision
    }

    /// The next document, or `None` once all have been yielded.
    pub fn next(&mut self) -> (r: Option<Result<D>>)
        ensures
            old(self).remaining().len() == 0 ==> r is None && final(self).remaining()
                == old(self).remaining(),
            old(self).remaining().len() > 0 ==> (r matches Some(Ok(d)) && d == old(
                self,
            ).remaining()[0]) && final(self).remaining() == old(self).remaining().drop_first(),
            final(self).spec_revision() == old(self).spec_revision(),
    {
        match self.pending.pop() {
            Some(doc) => {
                proof {
                    assert(old(self).pending@ == self.pending@.push(doc));
                    assert(old(self).remaining() =~= seq![doc] + self.remaining());
                }
                Some(Ok(doc))
            },
            None => None,
        }
    }
}


} // verus!
