//! The emitted columnar array and the finish step that builds it from a
//! completed accumulator pair.

use vstd::prelude::*;
use crate::buffer::{Binary, Decoded, width_limit};

verus! {

/// Physical type of the output array: binary or string values, indexed by
/// narrow (32-bit) or wide (64-bit) offsets. The width is chosen once per
/// column.
#[derive(Clone, Copy, Debug, PartialEq, Eq, Structural)]
pub enum ArrayKind {
    Binary,
    LargeBinary,
    Utf8,
    LargeUtf8,
}

impl ArrayKind {
    /// Whether offsets are 64-bit.
    pub open spec fn is_wide(self) -> bool {
        self is LargeBinary || self is LargeUtf8
    }

    /// Whether values are logically strings, requiring UTF-8 validation.
    pub open spec fn is_string(self) -> bool {
        self is Utf8 || self is LargeUtf8
    }

    /// Executable test for a wide-offset kind.
    pub fn wide(&self) -> (r: bool)
        ensures
            r == self.is_wide(),
    {
        match self {
            ArrayKind::LargeBinary | ArrayKind::LargeUtf8 => true,
            ArrayKind::Binary | ArrayKind::Utf8 => false,
        }
    }

    /// Executable test for a string kind.
    pub fn string(&self) -> (r: bool)
        ensures
            r == self.is_string(),
    {
        match self {
            ArrayKind::Utf8 | ArrayKind::LargeUtf8 => true,
            ArrayKind::Binary | ArrayKind::LargeBinary => false,
        }
    }
}

/// One immutable output array: offsets, value bytes, and an optional
/// validity mask. The validity is absent when no page declared
/// nullability, meaning every row is valid.
#[derive(Debug)]
pub struct BinaryArray {
    pub kind: ArrayKind,
    pub offsets: Vec<usize>,
    pub values: Vec<u8>,
    pub validity: Option<Vec<bool>>,
}

impl BinaryArray {
    /// Number of rows.
    pub open spec fn num_rows(self) -> int {
        self.offsets@.len() - 1
    }

    /// Each row's span of value bytes.
    pub open spec fn spans(self) -> Seq<Seq<u8>> {
        Seq::new((self.offsets@.len() - 1) as nat, |i: int|
            self.values@.subrange(self.offsets@[i] as int, self.offsets@[i + 1] as int))
    }

    /// Offsets start at zero, never decrease, end at the byte length, stay
    /// within the kind's offset width, and the validity, when present,
    /// tracks every row.
    pub open spec fn wf(self) -> bool {
        &&& self.offsets@.len() >= 1
        &&& self.offsets@[0] == 0
        &&& forall|i: int| 0 <= i < self.offsets@.len() - 1
            ==> #[trigger] self.offsets@[i] <= self.offsets@[i + 1]
        &&& forall|i: int| 0 <= i < self.offsets@.len()
            ==> #[trigger] self.offsets@[i] <= self.values@.len()
        &&& self.offsets@[self.offsets@.len() - 1] == self.values@.len()
        &&& self.values@.len() <= width_limit(self.kind.is_wide())
        &&& match self.validity {
            Option::None => true,
            Option::Some(v) => v@.len() == self.num_rows(),
        }
    }

    /// Number of rows.
    pub fn len(&self) -> (r: usize)
        requires
            self.wf(),
        ensures
            r == self.num_rows(),
    {
        self.offsets.len() - 1
    }
}

/// Convert a completed accumulator pair into the emitted array.
///
/// Construction trusts the accumulator's invariants: offsets are already
/// monotonic, and any UTF-8 violation was intercepted as a decode error
/// during the extends, so nothing is revalidated here.
pub fn finish(kind: &ArrayKind, values: Binary, validity: Vec<bool>) -> (r: BinaryArray)
    requires
        values.wf(),
        values.wide == kind.is_wide(),
        validity@.len() == 0 || validity@.len() == values.num_rows(),
    ensures
        r.wf(),
        r.kind == *kind,
        r.offsets@ == values.offsets@,
        r.values@ == values.values@,
        r.spans() == values.spans(),
        r.num_rows() == values.num_rows(),
        r.validity == if validity@.len() == 0 {
            Option::<Vec<bool>>::None
        } else {
            Option::<Vec<bool>>::Some(validity)
        },
{
    let opt_validity = if validity.len() == 0 {
        None
    } else {
        Some(validity)
    };
    let r = BinaryArray { kind: *kind, offsets: values.offsets, values: values.values, validity: opt_validity };
    proof {
        assert(r.spans() =~= values.spans());
    }
    r
}

} // verus!
