//! File snapshots: one file's observable state at scan time.
use std::sync::Arc;
use vstd::prelude::*;

use crate::chunks::ChunkPointer;

verus! {

/// The mathematical value of an `Entry`: every attribute, with the chunk
/// list given as (offset, content address) pairs.
pub struct EntryView {
    pub unix_secs: u64,
    pub unix_nanos: u32,
    pub unix_perm: u32,
    pub unix_uid: u32,
    pub unix_gid: u32,
    pub size: u64,
    pub readonly: bool,
    pub name: Seq<char>,
    pub chunks: Seq<(u64, Seq<u8>)>,
}

/// One file as observed during a scan: modification time (seconds and
/// sub-second nanoseconds since the Unix epoch), permission bits, owner and
/// group, length, read-only flag, name, and the chunks that make up its
/// content, each with the byte offset at which it starts.
///
/// Two entries are equal only when every attribute is, the whole chunk list
/// included.
#[derive(Clone, Hash)]
pub struct Entry {
    pub unix_secs: u64,
    pub unix_nanos: u32,
    pub unix_perm: u32,
    pub unix_uid: u32,
    pub unix_gid: u32,
    pub size: u64,
    pub readonly: bool,
    pub name: String,
    pub chunks: Vec<(u64, Arc<ChunkPointer>)>,
}

/// The view of one element of a chunk list.
pub open spec fn chunk_view(c: (u64, Arc<ChunkPointer>)) -> (u64, Seq<u8>) {
    (c.0, c.1@)
}

impl View for Entry {
    type V = EntryView;

    open spec fn view(&self) -> EntryView {
        EntryView {
            unix_secs: self.unix_secs,
            unix_nanos: self.unix_nanos,
            unix_perm: self.unix_perm,
            unix_uid: self.unix_uid,
            unix_gid: self.unix_gid,
            size: self.size,
            readonly: self.readonly,
            name: self.name@,
            chunks: self.chunks@.map_values(|c: (u64, Arc<ChunkPointer>)| chunk_view(c)),
        }
    }
}

impl Entry {
    /// An entry for a file whose metadata carries POSIX permission bits and
    /// owner ids. Its chunk list is empty until the content has been chunked.
    pub fn from_metadata(
        mtime: (u64, u32),
        unix_perm: u32,
        unix_uid: u32,
        unix_gid: u32,
        size: u64,
        readonly: bool,
        name: String,
    ) -> (r: Entry)
        ensures
            r@ == (EntryView {
                unix_secs: mtime.0,
                unix_nanos: mtime.1,
                unix_perm,
                unix_uid,
                unix_gid,
                size,
                readonly,
                name: name@,
                chunks: Seq::empty(),
            }),
    {
        let r = Entry {
            unix_secs: mtime.0,
            unix_nanos: mtime.1,
            unix_perm,
            unix_uid,
            unix_gid,
            size,
            readonly,
            name,
            chunks: Vec::new(),
        };
        assert(r@.chunks =~= Seq::empty());
        r
    }

    /// An entry for a file on a system without POSIX ownership: permission
    /// bits, owner and group are all zero.
    pub fn from_portable_metadata(mtime: (u64, u32), size: u64, readonly: bool, name: String) -> (r:
        Entry)
        ensures
            r@ == (EntryView {
                unix_secs: mtime.0,
                unix_nanos: mtime.1,
                unix_perm: 0,
                unix_uid: 0,
                unix_gid: 0,
                size,
                readonly,
                name: name@,
                chunks: Seq::empty(),
            }),
    {
        Entry::from_metadata(mtime, 0, 0, 0, size, readonly, name)
    }
}

impl PartialEq for Entry {
    fn eq(&self, o: &Entry) -> (r: bool) {
        if self.unix_secs != o.unix_secs || self.unix_nanos != o.unix_nanos || self.unix_perm
            != o.unix_perm || self.unix_uid != o.unix_uid || self.unix_gid != o.unix_gid
            || self.size != o.size || self.readonly != o.readonly {
            return false;
        }
        if self.name != o.name {
            return false;
        }
        if self.chunks.len() != o.chunks.len() {
            assert(self@.chunks.len() != o@.chunks.len());
            return false;
        }
        let mut i: usize = 0;
        while i < self.chunks.len()
            invariant
                i <= self.chunks@.len(),
                self.chunks@.len() == o.chunks@.len(),
                forall|j: int|
                    0 <= j < i ==> chunk_view(#[trigger] self.chunks@[j]) == chunk_view(
                        o.chunks@[j],
                    ),
            decreases self.chunks@.len() - i,
        {
            let a = &self.chunks[i];
            let b = &o.chunks[i];
            if a.0 != b.0 || *a.1 != *b.1 {
                assert(self@.chunks[i as int] != o@.chunks[i as int]);
                return false;
            }
            i = i + 1;
        }
        assert(self@.chunks =~= o@.chunks);
        true
    }
}

impl Eq for Entry {}

impl vstd::std_specs::cmp::PartialEqSpecImpl for Entry {
    open spec fn obeys_eq_spec() -> bool {
        true
    }

    open spec fn eq_spec(&self, o: &Entry) -> bool {
        self@ == o@
    }
}

} // verus!
