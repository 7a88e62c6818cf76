//! The deduplication index: the set of entries already captured, behind a
//! shareable handle, and its storage as one named field.
use dashmap::DashMap;
use std::collections::hash_map::RandomState;
use std::sync::Arc;
use vstd::prelude::*;

use crate::entry::{Entry, EntryView};
use crate::field::{share, FieldError, FieldReader, FieldWriter};

verus! {

#[verifier::external_type_specification]
#[verifier::external_body]
#[verifier::reject_recursive_types(K)]
#[verifier::reject_recursive_types(V)]
#[verifier::reject_recursive_types(S)]
pub struct ExDashMap<K, V, S>(DashMap<K, V, S>);

/// Entries known to be in the map. The map never loses a key, so they stay
/// in it; where other handles write to the same map it may hold more.
pub uninterp spec fn index_entries(m: DashMap<Arc<Entry>, (), RandomState>) -> Set<EntryView>;

/// Relies on `DashMap::default`: a new map holds no key.
#[verifier::external_body]
fn empty_map() -> (r: Arc<DashMap<Arc<Entry>, (), RandomState>>)
    ensures
        index_entries(*r) == Set::<EntryView>::empty(),
{
    Arc::new(DashMap::default())
}

/// Relies on `DashMap::contains_key`: true exactly when a key equal to `e`
/// is present now (keys compare by `Entry`'s `==`, which is equality of
/// views). Every known entry is present. An index that was never shared is
/// the only holder of its map, so there the known entries are all it holds.
/// No reference into the map outlives a call of this module, so the call
/// cannot wait on a lock held by its own thread.
#[verifier::external_body]
fn map_contains(m: &FileIndex, e: &Entry) -> (r: bool)
    ensures
        m.entries().contains(e@) ==> r,
        !m.is_shared() ==> r == m.entries().contains(e@),
{
    m.map.contains_key(e)
}

/// Relies on `DashMap::insert`: afterwards a key equal to `e` is present,
/// and no key has been removed.
#[verifier::external_body]
fn map_insert(m: &mut FileIndex, e: Arc<Entry>)
    ensures
        final(m).entries() == old(m).entries().insert(e@),
        final(m).is_shared() == old(m).is_shared(),
{
    m.map.insert(e, ());
}

/// Relies on `DashMap::iter`: it visits every key present once, and each
/// item's guard is dropped before the next. Every known entry is present; in
/// an index that was never shared nothing else is.
#[verifier::external_body]
fn map_snapshot(m: &FileIndex) -> (r: Vec<Arc<Entry>>)
    ensures
        forall|i: int, j: int| 0 <= i < j < r@.len() ==> r@[i]@ != r@[j]@,
        forall|e: EntryView| #[trigger]
            m.entries().contains(e) ==> exists|i: int| 0 <= i < r@.len() && r@[i]@ == e,
        !m.is_shared() ==> forall|i: int|
            0 <= i < r@.len() ==> m.entries().contains(#[trigger] r@[i]@),
{
    m.map.iter().map(|kv| Arc::clone(kv.key())).collect()
}

/// One handle's view of a concurrent set of entries. The set itself, a map
/// whose values carry nothing, may be shared with other handles; it can be
/// read here and is written only through `FileStore`.
pub struct FileIndex {
    map: Arc<DashMap<Arc<Entry>, (), RandomState>>,
    shared: bool,
}

impl FileIndex {
    /// The entries in the set: all of them where the set was never shared,
    /// those known through this handle where it was.
    pub closed spec fn entries(&self) -> Set<EntryView> {
        index_entries(*self.map)
    }

    /// Whether other handles on the set may exist.
    pub closed spec fn is_shared(&self) -> bool {
        self.shared
    }

    /// Whether an entry equal to `e` is in the set.
    pub fn contains(&self, e: &Entry) -> (r: bool)
        ensures
            self.entries().contains(e@) ==> r,
            !self.is_shared() ==> r == self.entries().contains(e@),
    {
        map_contains(self, e)
    }

    /// Every entry in the set, each once, in no particular order.
    pub fn snapshot(&self) -> (r: Vec<Arc<Entry>>)
        ensures
            covers_once(r@.map_values(|a: Arc<Entry>| a@), self.entries()),
            !self.is_shared() ==> lists_once(r@.map_values(|a: Arc<Entry>| a@), self.entries()),
    {
        let r = map_snapshot(self);
        let ghost out = r@.map_values(|a: Arc<Entry>| a@);
        assert forall|e: EntryView| #[trigger] self.entries().contains(e) implies out.contains(e) by {
            let k = choose|k: int| 0 <= k < r@.len() && r@[k]@ == e;
            assert(out[k] == e);
        }
        assert forall|e: EntryView| #[trigger]
            out.contains(e) && !self.is_shared() implies self.entries().contains(e) by {
            let k = choose|k: int| 0 <= k < out.len() && out[k] == e;
            assert(r@[k]@ == e);
        }
        r
    }

    /// The number of entries in the set.
    pub fn len(&self) -> (r: usize)
        ensures
            self.entries().finite() && !self.is_shared() ==> r == self.entries().len(),
    {
        let all = self.snapshot();
        proof {
            if self.entries().finite() && !self.is_shared() {
                let out = all@.map_values(|a: Arc<Entry>| a@);
                out.unique_seq_to_set();
                assert(out.to_set() =~= self.entries());
            }
        }
        all.len()
    }
}

/// A handle on an index of the entries captured so far. A handle made by
/// `default` is the only one on its index until `share` makes a second;
/// from then on both handles are shared, and what a shared handle knows of
/// the index is a lower bound, since the others may add to it.
pub struct FileStore {
    index: FileIndex,
}

/// `records` names every member of `s`, each once, and perhaps other
/// values too, each once.
pub open spec fn covers_once(records: Seq<EntryView>, s: Set<EntryView>) -> bool {
    &&& forall|i: int, j: int| 0 <= i < j < records.len() ==> records[i] != records[j]
    &&& forall|e: EntryView| #[trigger] s.contains(e) ==> records.contains(e)
}

/// `records` names every member of `s`, each exactly once, in some order.
pub open spec fn lists_once(records: Seq<EntryView>, s: Set<EntryView>) -> bool {
    &&& forall|i: int, j: int| 0 <= i < j < records.len() ==> records[i] != records[j]
    &&& forall|e: EntryView| #[trigger] s.contains(e) <==> records.contains(e)
}

/// The entries held after reading `records` into a store holding `start`:
/// each record up to the first one that does not decode is added.
pub open spec fn loaded(start: Set<EntryView>, records: Seq<Option<EntryView>>) -> Set<EntryView>
    decreases records.len(),
{
    if records.len() == 0 {
        start
    } else {
        match records[0] {
            Some(v) => loaded(start.insert(v), records.drop_first()),
            None => start,
        }
    }
}

/// The records left unread once loading stops: none where every record
/// decodes, else those after the first that does not.
pub open spec fn left_after_load(records: Seq<Option<EntryView>>) -> Seq<Option<EntryView>>
    decreases records.len(),
{
    if records.len() == 0 {
        records
    } else {
        match records[0] {
            Some(_) => left_after_load(records.drop_first()),
            None => records.drop_first(),
        }
    }
}

/// Every record decodes.
pub open spec fn all_decode(records: Seq<Option<EntryView>>) -> bool {
    forall|i: int| 0 <= i < records.len() ==> (#[trigger] records[i]) is Some
}

impl FileStore {
    /// The entries in the index: all of them on a handle that was never
    /// shared, those known through this handle on a shared one.
    pub open spec fn entries(&self) -> Set<EntryView> {
        self.index().entries()
    }

    /// Whether other handles on this index may exist.
    pub open spec fn is_shared(&self) -> bool {
        self.index().is_shared()
    }

    /// The known entries are finitely many.
    pub open spec fn wf(&self) -> bool {
        self.entries().finite()
    }

    /// The index, to be read for iteration and reporting.
    #[verifier::when_used_as_spec(spec_index)]
    pub fn index(&self) -> (r: &FileIndex)
        ensures
            r == self.spec_index(),
    {
        &self.index
    }

    pub closed spec fn spec_index(&self) -> &FileIndex {
        &self.index
    }

    /// A second handle on the same index, so that several workers can push
    /// to it. Both handles count as shared from then on.
    pub fn share(&mut self) -> (r: FileStore)
        requires
            old(self).wf(),
        ensures
            final(self).entries() == old(self).entries(),
            r.entries() == old(self).entries(),
            final(self).is_shared(),
            r.is_shared(),
            final(self).wf(),
            r.wf(),
    {
        self.index.shared = true;
        FileStore { index: FileIndex { map: share(&self.index.map), shared: true } }
    }

    /// Whether no entry equal to `file` is in the index. On a handle that
    /// was never shared this is exactly that no equal entry was captured; on
    /// a shared one another handle may have added it.
    pub fn has_changed(&self, file: &Entry) -> (r: bool)
        ensures
            self.entries().contains(file@) ==> !r,
            !self.is_shared() ==> r == !self.entries().contains(file@),
    {
        !self.index.contains(file)
    }

    /// Records `file`; pushing an entry already present changes nothing.
    pub fn push(&mut self, file: Entry)
        requires
            old(self).wf(),
        ensures
            final(self).entries() == old(self).entries().insert(file@),
            final(self).is_shared() == old(self).is_shared(),
            final(self).wf(),
    {
        map_insert(&mut self.index, Arc::new(file));
    }

    /// The name of the field under which the index is stored.
    pub fn key() -> (r: String)
        ensures
            r@ == "files"@,
    {
        "files".to_owned()
    }

    /// Writes every entry of the index to `mw`, one record each, in some
    /// order.
    pub fn serialize<W: FieldWriter<Arc<Entry>>>(&self, mw: &mut W)
        ensures
            final(mw).written().len() >= old(mw).written().len(),
            final(mw).written().take(old(mw).written().len() as int) == old(mw).written(),
            covers_once(final(mw).written().skip(old(mw).written().len() as int), self.entries()),
            !self.is_shared() ==> lists_once(
                final(mw).written().skip(old(mw).written().len() as int),
                self.entries(),
            ),
    {
        let snapshot = self.index.snapshot();
        let ghost start = mw.written();
        let mut i: usize = 0;
        while i < snapshot.len()
            invariant
                i <= snapshot@.len(),
                mw.written().len() == start.len() + i,
                mw.written().take(start.len() as int) == start,
                forall|j: int|
                    0 <= j < i ==> #[trigger] mw.written()[start.len() + j] == snapshot@[j]@,
            decreases snapshot@.len() - i,
        {
            let ghost before = mw.written();
            mw.write_next(&snapshot[i]);
            assert(mw.written().take(start.len() as int) =~= before.take(start.len() as int));
            i = i + 1;
        }
        let ghost out = mw.written().skip(start.len() as int);
        assert forall|j: int| 0 <= j < out.len() implies #[trigger] out[j] == snapshot@[j]@ by {
            assert(mw.written()[start.len() + j] == snapshot@[j]@);
        }
        assert(out =~= snapshot@.map_values(|a: Arc<Entry>| a@));
    }

    /// Reads records from `mr` into the index until none is left or one does
    /// not decode. In the second case the records read before it stay in the
    /// index and `Corrupt` is returned, so the caller decides whether to keep
    /// them.
    pub fn deserialize<R: FieldReader<Arc<Entry>>>(&mut self, mr: &mut R) -> (r: Result<
        (),
        FieldError,
    >)
        requires
            old(self).wf(),
        ensures
            final(self).entries() == loaded(old(self).entries(), old(mr).pending()),
            final(self).is_shared() == old(self).is_shared(),
            final(self).wf(),
            final(mr).pending() == left_after_load(old(mr).pending()),
            r is Ok <==> all_decode(old(mr).pending()),
            r is Err ==> r == Err::<(), FieldError>(FieldError::Corrupt),
    {
        loop
            invariant
                loaded(self.entries(), mr.pending()) == loaded(
                    old(self).entries(),
                    old(mr).pending(),
                ),
                left_after_load(mr.pending()) == left_after_load(old(mr).pending()),
                all_decode(mr.pending()) == all_decode(old(mr).pending()),
                self.is_shared() == old(self).is_shared(),
                self.wf(),
            decreases mr.pending().len(),
        {
            let ghost p = mr.pending();
            match mr.read_next() {
                Ok(file) => {
                    proof {
                        assert(all_decode(p) == all_decode(p.drop_first())) by {
                            if all_decode(p.drop_first()) {
                                assert forall|i: int| 0 <= i < p.len() implies (
                                #[trigger] p[i]) is Some by {
                                    if i > 0 {
                                        assert(p[i] == p.drop_first()[i - 1]);
                                    }
                                }
                            }
                        }
                    }
                    map_insert(&mut self.index, file);
                },
                Err(FieldError::End) => {
                    assert(p.len() == 0);
                    return Ok(());
                },
                Err(FieldError::Corrupt) => {
                    assert(!all_decode(p) && p[0] is None);
                    return Err(FieldError::Corrupt);
                },
            }
        }
    }
}

impl Default for FileStore {
    fn default() -> (r: FileStore)
        ensures
            r.entries() == Set::<EntryView>::empty(),
            !r.is_shared(),
            r.wf(),
    {
        FileStore { index: FileIndex { map: empty_map(), shared: false } }
    }
}

/// The entries held after pushing `pushed`, in order, into a store holding
/// `start`.
pub open spec fn after_pushes(start: Set<EntryView>, pushed: Seq<EntryView>) -> Set<EntryView>
    decreases pushed.len(),
{
    if pushed.len() == 0 {
        start
    } else {
        after_pushes(start, pushed.drop_last()).insert(pushed.last())
    }
}

/// Pushing an entry twice leaves the same entries, and so the same number
/// of them, as pushing it once.
pub proof fn lemma_push_idempotent(start: Set<EntryView>, e: EntryView)
    ensures
        after_pushes(start, seq![e, e]) == after_pushes(start, seq![e]),
        start.finite() ==> after_pushes(start, seq![e, e]).len() == after_pushes(
            start,
            seq![e],
        ).len(),
{
    assert(seq![e, e].drop_last() =~= seq![e]);
    assert(seq![e].drop_last() =~= Seq::<EntryView>::empty());
    assert(after_pushes(start, seq![e, e]) =~= after_pushes(start, seq![e]));
}

/// Pushing an entry into a store with finitely many entries adds one entry
/// exactly when no equal one was there.
pub proof fn lemma_push_count(start: Set<EntryView>, e: EntryView)
    requires
        start.finite(),
    ensures
        after_pushes(start, seq![e]).finite(),
        after_pushes(start, seq![e]).len() == start.len() + if start.contains(e) {
            0int
        } else {
            1int
        },
{
    assert(seq![e].drop_last() =~= Seq::<EntryView>::empty());
    assert(after_pushes(start, seq![e].drop_last()) == start);
    if start.contains(e) {
        assert(start.insert(e) =~= start);
    }
}

/// An entry is reported changed by a fresh store that was never pushed an
/// equal one, and unchanged right after it has been pushed.
pub proof fn lemma_change_detection(pushed: Seq<EntryView>, e: EntryView)
    ensures
        !pushed.contains(e) ==> !after_pushes(Set::empty(), pushed).contains(e),
        after_pushes(Set::empty(), pushed.push(e)).contains(e),
    decreases pushed.len(),
{
    assert(pushed.push(e).drop_last() =~= pushed);
    if pushed.len() > 0 {
        lemma_change_detection(pushed.drop_last(), e);
        if !pushed.contains(e) {
            assert(!pushed.drop_last().contains(e)) by {
                if pushed.drop_last().contains(e) {
                    let k = choose|k: int| 0 <= k < pushed.len() - 1 && pushed.drop_last()[k] == e;
                    assert(pushed[k] == e);
                }
            }
            assert(pushed[pushed.len() - 1] != e);
        }
    }
}

/// Two entries whose modification times differ are distinct, whatever their
/// other attributes: once one is pushed the other is still reported changed.
pub proof fn lemma_full_value_identity(a: EntryView, b: EntryView, start: Set<EntryView>)
    requires
        a.unix_secs != b.unix_secs,
        !start.contains(b),
    ensures
        a != b,
        !after_pushes(start, seq![a]).contains(b),
{
    assert(seq![a].drop_last() =~= Seq::<EntryView>::empty());
    assert(after_pushes(start, seq![a].drop_last()) == start);
    assert(after_pushes(start, seq![a]) == start.insert(a));
}

proof fn lemma_load_all(start: Set<EntryView>, records: Seq<EntryView>)
    ensures
        loaded(start, records.map_values(|v: EntryView| Some(v))) == start.union(records.to_set()),
        left_after_load(records.map_values(|v: EntryView| Some(v))).len() == 0,
        all_decode(records.map_values(|v: EntryView| Some(v))),
    decreases records.len(),
{
    let wrapped = records.map_values(|v: EntryView| Some(v));
    if records.len() == 0 {
        assert(records.to_set() =~= Set::empty());
        assert(start.union(records.to_set()) =~= start);
    } else {
        let rest = records.drop_first();
        assert(wrapped.drop_first() =~= rest.map_values(|v: EntryView| Some(v)));
        lemma_load_all(start.insert(records[0]), rest);
        assert forall|e: EntryView|
            start.insert(records[0]).union(rest.to_set()).contains(e) <==> #[trigger] start.union(
                records.to_set(),
            ).contains(e) by {
            if rest.contains(e) {
                let k = choose|k: int| 0 <= k < rest.len() && rest[k] == e;
                assert(records[k + 1] == e);
            }
            if records.contains(e) && e != records[0] {
                let k = choose|k: int| 0 <= k < records.len() && records[k] == e;
                assert(rest[k - 1] == e);
            }
            if e == records[0] {
                assert(records.contains(e));
            }
        }
        assert(start.insert(records[0]).union(rest.to_set()) =~= start.union(records.to_set()));
    }
}

/// Writing every entry of a store and reading the records back into a
/// fresh store gives back exactly the same set of entries, and the read
/// ends cleanly with no record left.
pub proof fn lemma_round_trip(entries: Set<EntryView>, records: Seq<EntryView>)
    requires
        lists_once(records, entries),
    ensures
        loaded(Set::empty(), records.map_values(|v: EntryView| Some(v))) == entries,
        all_decode(records.map_values(|v: EntryView| Some(v))),
        left_after_load(records.map_values(|v: EntryView| Some(v))).len() == 0,
{
    lemma_load_all(Set::empty(), records);
    assert(Set::<EntryView>::empty().union(records.to_set()) =~= entries);
}

} // verus!
