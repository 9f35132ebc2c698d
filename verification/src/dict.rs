//! The per-page dictionary: a deduplicated value table built once from a
//! dictionary page and referenced by later data pages through indices.

use vstd::prelude::*;

verus! {

/// An ordered table of byte values. Indices used against it must be below
/// `len()`. When the column is string-typed its contents are UTF-8-checked
/// once, at construction, and never rechecked afterwards.
pub struct BinaryDict {
    pub values: Vec<Vec<u8>>,
}

impl BinaryDict {
    /// The stored values.
    pub open spec fn entries(self) -> Seq<Seq<u8>> {
        Seq::new(self.values@.len(), |i: int| self.values@[i]@)
    }

    /// An empty dictionary.
    pub fn new() -> (r: BinaryDict)
        ensures
            r.entries() =~= Seq::<Seq<u8>>::empty(),
    {
        BinaryDict { values: Vec::new() }
    }

    /// Number of stored values.
    pub fn len(&self) -> (r: usize)
        ensures
            r == self.entries().len(),
    {
        self.values.len()
    }

    /// The stored value at `i`.
    pub fn value(&self, i: usize) -> (r: &Vec<u8>)
        requires
            i < self.entries().len(),
        ensures
            r@ == self.entries()[i as int],
    {
        &self.values[i]
    }

    /// Append one value during construction.
    pub fn push_value(&mut self, v: Vec<u8>)
        ensures
            final(self).entries() =~= old(self).entries().push(v@),
    {
        self.values.push(v);
    }

    /// An independent copy, kept by a decode-cursor while the original
    /// stays cached for later pages.
    pub fn duplicate(&self) -> (r: BinaryDict)
        ensures
            r.entries() == self.entries(),
    {
        let mut values: Vec<Vec<u8>> = Vec::new();
        let mut i: usize = 0;
        while i < self.values.len()
            invariant
                i <= self.values@.len(),
                values@.len() == i as int,
                forall|j: int| 0 <= j < i ==> #[trigger] values@[j]@ == self.values@[j]@,
            decreases self.values@.len() - i,
        {
            let entry = &self.values[i];
            let copy = crate::cursor::copy_range(entry, 0, entry.len());
            proof {
                assert(copy@ =~= self.values@[i as int]@);
            }
            values.push(copy);
            i = i + 1;
        }
        let r = BinaryDict { values };
        proof {
            assert(r.entries() =~= self.entries());
        }
        r
    }
}

} // verus!
