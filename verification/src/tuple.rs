use vstd::prelude::*;

verus! {

/// Per-tuple metadata stored in the slot directory; at present only the
/// tombstone bit.
#[derive(Clone, Copy, Debug, PartialEq, Eq, Structural)]
pub struct TupleMetadata {
    pub is_deleted: bool,
}

impl TupleMetadata {
    pub fn new(is_deleted: bool) -> (r: TupleMetadata)
        ensures
            r.spec_is_deleted() == is_deleted,
    {
        TupleMetadata { is_deleted }
    }

    pub open spec fn spec_is_deleted(&self) -> bool {
        self.is_deleted
    }

    pub fn is_deleted(&self) -> (r: bool)
        ensures
            r == self.spec_is_deleted(),
    {
        self.is_deleted
    }
}

/// A tuple payload: the raw bytes of one record as laid out on a page.
#[derive(Debug)]
pub struct Tuple {
    pub data: Vec<u8>,
}

impl View for Tuple {
    type V = Seq<u8>;

    open spec fn view(&self) -> Seq<u8> {
        self.data@
    }
}

impl Clone for Tuple {
    fn clone(&self) -> (r: Self)
        ensures
            r@ == self@,
    {
        Tuple { data: self.data.clone() }
    }
}

impl Tuple {
    pub fn new(data: Vec<u8>) -> (r: Tuple)
        ensures
            r@ == data@,
    {
        Tuple { data }
    }

    pub fn len(&self) -> (r: usize)
        ensures
            r == self@.len(),
    {
        self.data.len()
    }
}

} // verus!
