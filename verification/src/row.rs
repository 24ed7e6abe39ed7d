use vstd::prelude::*;
use crate::error::Error;
use crate::field::{Field, FieldV};

verus! {

/// A record identifier: the page holding the tuple and the slot within it.
#[derive(Clone, Copy, Debug, PartialEq, Eq, Hash, Structural)]
pub struct RecordId {
    pub page_id: u32,
    pub slot_id: u16,
}

impl DeepView for RecordId {
    type V = RecordId;

    open spec fn deep_view(&self) -> RecordId {
        *self
    }
}

impl RecordId {
    pub fn new(page_id: u32, slot_id: u16) -> (r: RecordId)
        ensures
            r.page_id == page_id,
            r.slot_id == slot_id,
    {
        RecordId { page_id, slot_id }
    }

    /// The reserved record id that marks synthesized rows (aggregates,
    /// literal values, joins).
    pub fn invalid() -> (r: RecordId)
        ensures
            r == spec_invalid_rid(),
    {
        RecordId { page_id: u32::MAX, slot_id: 0 }
    }
}

pub open spec fn spec_invalid_rid() -> RecordId {
    RecordId { page_id: u32::MAX, slot_id: 0 }
}

/// The mathematical value of a row: the sequence of its field values.
pub type RowV = Seq<FieldV>;

/// An ordered sequence of fields; width is fixed per source.
#[derive(Debug)]
pub struct Row {
    pub fields: Vec<Field>,
}

impl View for Row {
    type V = Seq<FieldV>;

    open spec fn view(&self) -> Seq<FieldV> {
        self.fields.deep_view()
    }
}

impl DeepView for Row {
    type V = Seq<FieldV>;

    open spec fn deep_view(&self) -> Seq<FieldV> {
        self.view()
    }
}

impl Clone for Row {
    fn clone(&self) -> (r: Self)
        ensures
            r@ == self@,
    {
        let mut fields: Vec<Field> = Vec::new();
        let n = self.fields.len();
        let mut i: usize = 0;
        while i < n
            invariant
                i <= n,
                n == self.fields.len(),
                fields@.len() == i,
                forall|j: int| 0 <= j < i ==> #[trigger] fields@[j]@ == self.fields@[j]@,
            decreases n - i,
        {
            fields.push(self.fields[i].clone());
            i = i + 1;
        }
        proof {
            assert forall|j: int| 0 <= j < n implies #[trigger] fields.deep_view()[j]
                == self.fields.deep_view()[j] by {
                assert(fields@[j]@ == self.fields@[j]@);
            }
            assert(fields.deep_view() =~= self.fields.deep_view());
        }
        Row { fields }
    }
}

impl Row {
    /// Builds a row from a vector of fields.
    pub fn new(fields: Vec<Field>) -> (r: Row)
        ensures
            r@ == fields.deep_view(),
    {
        Row { fields }
    }

    pub fn len(&self) -> (r: usize)
        ensures
            r == self@.len(),
    {
        self.fields.len()
    }

    /// The field at `index`, or `InvalidInput` when the index is out of
    /// range.
    pub fn get_field(&self, index: usize) -> (r: Result<&Field, Error>)
        ensures
            index < self@.len() ==> (r matches Ok(f) && f@ == self@[index as int]),
            index >= self@.len() ==> r == Err::<&Field, Error>(Error::InvalidInput),
    {
        if index < self.fields.len() {
            Ok(&self.fields[index])
        } else {
            Err(Error::InvalidInput)
        }
    }

    /// Replaces the field at `index`, or returns `InvalidInput` when the
    /// index is out of range.
    pub fn update_field(&mut self, index: usize, value: Field) -> (r: Result<(), Error>)
        ensures
            index < old(self)@.len() ==> (r matches Ok(u) && final(self)@ =~= old(self)@.update(
                index as int,
                value@,
            )),
            index >= old(self)@.len() ==> (r == Err::<(), Error>(Error::InvalidInput)
                && final(self)@ == old(self)@),
    {
        if index < self.fields.len() {
            self.fields.set(index, value);
            Ok(())
        } else {
            Err(Error::InvalidInput)
        }
    }
}

} // verus!
