//! The protocol by which a collection is stored as one named field of a
//! metadata object: a sink that takes one record at a time, and a source
//! that hands them back one at a time and can fail.
use std::sync::Arc;
use vstd::prelude::*;

verus! {

/// Why a field source handed back no record.
#[derive(Clone, Copy, Debug, PartialEq, Eq, Structural)]
pub enum FieldError {
    /// Every record of the field has been read.
    End,
    /// The next record could not be decoded.
    Corrupt,
}

/// A sink for the records of one field.
pub trait FieldWriter<T: View> {
    /// The records written so far, oldest first.
    spec fn written(&self) -> Seq<T::V>;

    /// Appends one record.
    fn write_next(&mut self, item: &T)
        ensures
            final(self).written() == old(self).written().push(item@),
    ;
}

/// A source of the records of one field.
pub trait FieldReader<T: View> {
    /// The records not read yet, in order; `None` stands for one that does
    /// not decode.
    spec fn pending(&self) -> Seq<Option<T::V>>;

    /// Reads the next record: `End` once none is left, `Corrupt` for one that
    /// does not decode. A record is consumed whenever one is left.
    fn read_next(&mut self) -> (r: Result<T, FieldError>)
        ensures
            old(self).pending().len() == 0 ==> r == Err::<T, FieldError>(FieldError::End)
                && final(self).pending() == old(self).pending(),
            old(self).pending().len() > 0 ==> final(self).pending() == old(
                self,
            ).pending().drop_first(),
            old(self).pending().len() > 0 ==> match old(self).pending()[0] {
                Some(v) => r is Ok && r->Ok_0@ == v,
                None => r == Err::<T, FieldError>(FieldError::Corrupt),
            },
    ;
}

pub open spec fn option_view<T: View>(o: Option<T>) -> Option<T::V> {
    match o {
        Some(t) => Some(t@),
        None => None,
    }
}

/// Relies on `Arc::clone`: the new handle points at the same value.
#[verifier::external_body]
pub(crate) fn share<T>(a: &Arc<T>) -> (r: Arc<T>)
    ensures
        r == *a,
{
    Arc::clone(a)
}

/// An in-memory field: the records written to it, in order. Records are
/// shared values, so writing one copies a handle, not the value.
pub struct FieldBuffer<T> {
    records: Vec<Arc<T>>,
}

impl<T: View> FieldBuffer<T> {
    pub closed spec fn contents(&self) -> Seq<T::V> {
        self.records@.map_values(|t: Arc<T>| t@)
    }

    pub fn new() -> (r: FieldBuffer<T>)
        ensures
            r.contents() == Seq::<T::V>::empty(),
    {
        let r = FieldBuffer { records: Vec::new() };
        assert(r.contents() =~= Seq::<T::V>::empty());
        r
    }

    pub fn len(&self) -> (r: usize)
        ensures
            r == self.contents().len(),
    {
        self.records.len()
    }

    /// A source that reads back, in order, every record written here.
    pub fn into_reader(self) -> (r: FieldCursor<T>)
        ensures
            r.pending() == self.contents().map_values(|v: T::V| Some(v)),
    {
        let mut records = self.records;
        let ghost all = records@;
        let mut reversed: Vec<Option<Arc<T>>> = Vec::new();
        while records.len() > 0
            invariant
                all.len() == records@.len() + reversed@.len(),
                records@ == all.take(records@.len() as int),
                forall|i: int|
                    0 <= i < reversed@.len() ==> #[trigger] reversed@[i] == Some(
                        all[all.len() - 1 - i],
                    ),
            decreases records@.len(),
        {
            let t = records.pop().unwrap();
            reversed.push(Some(t));
            assert(records@ =~= all.take(records@.len() as int));
        }
        let r = FieldCursor { records: reversed };
        assert(r.pending() =~= self.contents().map_values(|v: T::V| Some(v)));
        r
    }
}

impl<T: View> FieldWriter<Arc<T>> for FieldBuffer<T> {
    open spec fn written(&self) -> Seq<T::V> {
        self.contents()
    }

    fn write_next(&mut self, item: &Arc<T>) {
        self.records.push(share(item));
        assert(self.contents() =~= old(self).contents().push(item@));
    }
}

/// A source over records already decoded by a container, each one either a
/// value or `None` where decoding failed.
pub struct FieldCursor<T> {
    /// The records not read yet, last one first.
    records: Vec<Option<Arc<T>>>,
}

impl<T: View> FieldCursor<T> {
    /// A source that hands out `records` in order.
    pub fn from_records(records: Vec<Option<Arc<T>>>) -> (r: FieldCursor<T>)
        ensures
            r.pending() == records@.map_values(|o: Option<Arc<T>>| option_view(o)),
    {
        let mut records = records;
        let ghost all = records@;
        let mut reversed: Vec<Option<Arc<T>>> = Vec::new();
        while records.len() > 0
            invariant
                all.len() == records@.len() + reversed@.len(),
                records@ == all.take(records@.len() as int),
                forall|i: int|
                    0 <= i < reversed@.len() ==> #[trigger] reversed@[i] == all[all.len() - 1
                        - i],
            decreases records@.len(),
        {
            let o = records.pop().unwrap();
            reversed.push(o);
            assert(records@ =~= all.take(records@.len() as int));
        }
        let r = FieldCursor { records: reversed };
        assert(r.pending() =~= all.map_values(|o: Option<Arc<T>>| option_view(o)));
        r
    }
}

impl<T: View> FieldReader<Arc<T>> for FieldCursor<T> {
    closed spec fn pending(&self) -> Seq<Option<T::V>> {
        Seq::new(
            self.records@.len(),
            |i: int| option_view(self.records@[self.records@.len() - 1 - i]),
        )
    }

    fn read_next(&mut self) -> (r: Result<Arc<T>, FieldError>) {
        let ghost before = self.pending();
        match self.records.pop() {
            None => Err(FieldError::End),
            Some(None) => {
                assert(self.pending() =~= before.drop_first());
                Err(FieldError::Corrupt)
            },
            Some(Some(t)) => {
                assert(self.pending() =~= before.drop_first());
                Ok(t)
            },
        }
    }
}

} // verus!
