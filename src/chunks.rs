//! Content-addressed references to stored chunks.
use vstd::prelude::*;

verus! {

/// Length in bytes of a chunk's content address.
pub const DIGEST_LEN: usize = 32;

/// A reference to a stored chunk of bytes, identified by the digest of its
/// content. Two pointers are equal exactly when their digests are.
#[derive(Clone, Hash)]
pub struct ChunkPointer {
    pub digest: [u8; 32],
}

impl View for ChunkPointer {
    type V = Seq<u8>;

    open spec fn view(&self) -> Seq<u8> {
        self.digest@
    }
}

impl ChunkPointer {
    pub fn new(digest: [u8; 32]) -> (r: ChunkPointer)
        ensures
            r@ == digest@,
    {
        ChunkPointer { digest }
    }
}

impl PartialEq for ChunkPointer {
    fn eq(&self, o: &ChunkPointer) -> (r: bool) {
        let mut i: usize = 0;
        while i < DIGEST_LEN
            invariant
                i <= DIGEST_LEN,
                self.digest@.len() == DIGEST_LEN,
                o.digest@.len() == DIGEST_LEN,
                forall|j: int| 0 <= j < i ==> self.digest@[j] == o.digest@[j],
            decreases DIGEST_LEN - i,
        {
            if self.digest[i] != o.digest[i] {
                return false;
            }
            i = i + 1;
        }
        proof {
            assert(self.digest@ =~= o.digest@);
        }
        true
    }
}

impl Eq for ChunkPointer {}

impl vstd::std_specs::cmp::PartialEqSpecImpl for ChunkPointer {
    open spec fn obeys_eq_spec() -> bool {
        true
    }

    open spec fn eq_spec(&self, o: &ChunkPointer) -> bool {
        self@ == o@
    }
}

} // verus!
