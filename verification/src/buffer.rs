//! The byte/offset accumulator and the validity accumulator.
//!
//! `Binary` holds growable value bytes plus row-boundary offsets. The
//! offset width (narrow, 32-bit, or wide, 64-bit) is fixed for the buffer's
//! lifetime and bounds how many value bytes it may hold.

use vstd::prelude::*;
use crate::error::DecodeError;

verus! {

/// Largest byte position a narrow (32-bit signed) offset can index.
pub open spec fn narrow_limit() -> int {
    0x7fff_ffff
}

/// Largest byte position a wide (64-bit signed) offset can index.
pub open spec fn wide_limit() -> int {
    0x7fff_ffff_ffff_ffff
}

/// The byte-count bound imposed by the chosen offset width.
pub open spec fn width_limit(wide: bool) -> int {
    if wide {
        wide_limit()
    } else {
        narrow_limit()
    }
}

/// Growable value bytes plus row-boundary offsets for N rows.
///
/// `offsets` always has N+1 entries: entry 0 is 0, entry N is the byte
/// length, and consecutive entries bound row N-1's value bytes.
pub struct Binary {
    pub offsets: Vec<usize>,
    pub values: Vec<u8>,
    pub wide: bool,
}

impl Binary {
    /// Well-formedness: offsets start at zero, never decrease, end at the
    /// byte length, and stay within the offset width's bound.
    pub open spec fn wf(self) -> bool {
        &&& self.offsets@.len() >= 1
        &&& self.offsets@[0] == 0
        &&& forall|i: int| 0 <= i < self.offsets@.len() - 1
            ==> #[trigger] self.offsets@[i] <= self.offsets@[i + 1]
        &&& forall|i: int| 0 <= i < self.offsets@.len()
            ==> #[trigger] self.offsets@[i] <= self.values@.len()
        &&& self.offsets@[self.offsets@.len() - 1] == self.values@.len()
        &&& self.values@.len() <= width_limit(self.wide)
    }

    /// Number of rows accumulated so far.
    pub open spec fn num_rows(self) -> int {
        self.offsets@.len() - 1
    }

    /// The accumulated rows, each as its span of value bytes.
    pub open spec fn spans(self) -> Seq<Seq<u8>>
        recommends
            self.wf(),
    {
        Seq::new((self.offsets@.len() - 1) as nat, |i: int|
            self.values@.subrange(self.offsets@[i] as int, self.offsets@[i + 1] as int))
    }

    /// An empty accumulator for the given offset width.
    ///
    /// `capacity` is a sizing hint only; it does not affect the contents.
    pub fn with_capacity(capacity: usize, wide: bool) -> (r: Binary)
        ensures
            r.wf(),
            r.wide == wide,
            r.num_rows() == 0,
            r.values@ =~= Seq::<u8>::empty(),
            r.spans() =~= Seq::<Seq<u8>>::empty(),
    {
        let mut offsets: Vec<usize> = Vec::with_capacity(capacity);
        offsets.push(0);
        let values: Vec<u8> = Vec::with_capacity(capacity);
        Binary { offsets, values, wide }
    }

    /// Append one valid row holding `v[from..to]`.
    ///
    /// Succeeds exactly when the new byte total still fits the offset
    /// width; on overflow the accumulator is unchanged.
    pub fn push_range(&mut self, v: &Vec<u8>, from: usize, to: usize) -> (r: Result<
        (),
        DecodeError,
    >)
        requires
            old(self).wf(),
            from <= to <= v@.len(),
        ensures
            final(self).wf(),
            final(self).wide == old(self).wide,
            r is Ok <==> old(self).values@.len() + (to - from) <= width_limit(old(self).wide),
            r is Ok ==> {
                &&& final(self).values@ == old(self).values@ + v@.subrange(
                    from as int,
                    to as int,
                )
                &&& final(self).spans() == old(self).spans().push(v@.subrange(
                    from as int,
                    to as int,
                ))
            },
            r is Err ==> *final(self) == *old(self) && r == Err::<(), DecodeError>(
                DecodeError::OffsetOverflow,
            ),
    {
        let len = to - from;
        let limit: u64 = if self.wide {
            0x7fff_ffff_ffff_ffff
        } else {
            0x7fff_ffff
        };
        if len as u64 > limit || self.values.len() as u64 > limit - len as u64 {
            return Err(DecodeError::OffsetOverflow);
        }
        let ghost pre = *old(self);
        let ghost old_values = self.values@;
        let ghost old_spans = self.spans();
        let mut j: usize = from;
        while j < to
            invariant
                from <= j <= to <= v@.len(),
                pre.wf(),
                old_values == pre.values@,
                self.offsets@ == pre.offsets@,
                self.wide == pre.wide,
                self.values@ =~= old_values + v@.subrange(from as int, j as int),
                old_values.len() + (to - from) <= width_limit(self.wide),
            decreases to - j,
        {
            self.values.push(v[j]);
            proof {
                assert(self.values@ =~= old_values + v@.subrange(from as int, j + 1));
            }
            j = j + 1;
        }
        let new_end = self.values.len();
        self.offsets.push(new_end);
        proof {
            let pre = old(self);
            assert(self.offsets@ == pre.offsets@.push(new_end));
            assert forall|i: int| 0 <= i < self.num_rows() implies self.spans()[i]
                == if i < pre.num_rows() {
                    pre.spans()[i]
                } else {
                    v@.subrange(from as int, to as int)
                } by {
                if i < pre.num_rows() {
                    assert(self.values@.subrange(
                        self.offsets@[i] as int,
                        self.offsets@[i + 1] as int,
                    ) =~= pre.values@.subrange(
                        pre.offsets@[i] as int,
                        pre.offsets@[i + 1] as int,
                    ));
                } else {
                    assert(self.values@.subrange(
                        self.offsets@[i] as int,
                        self.offsets@[i + 1] as int,
                    ) =~= v@.subrange(from as int, to as int));
                }
            }
            assert(self.spans() =~= old_spans.push(v@.subrange(from as int, to as int)));
        }
        Ok(())
    }

    /// Append one null row: a zero-length span, made by repeating the last
    /// offset. Never fails, since no bytes are added.
    pub fn push_null(&mut self)
        requires
            old(self).wf(),
        ensures
            final(self).wf(),
            final(self).wide == old(self).wide,
            final(self).values@ == old(self).values@,
            final(self).spans() == old(self).spans().push(Seq::<u8>::empty()),
    {
        let ghost old_spans = self.spans();
        let end = self.values.len();
        self.offsets.push(end);
        proof {
            let pre = old(self);
            assert forall|i: int| 0 <= i < self.num_rows() implies self.spans()[i]
                == if i < pre.num_rows() {
                    pre.spans()[i]
                } else {
                    Seq::<u8>::empty()
                } by {
                if i < pre.num_rows() {
                    assert(self.values@.subrange(
                        self.offsets@[i] as int,
                        self.offsets@[i + 1] as int,
                    ) =~= pre.values@.subrange(
                        pre.offsets@[i] as int,
                        pre.offsets@[i + 1] as int,
                    ));
                } else {
                    assert(self.values@.subrange(
                        self.offsets@[i] as int,
                        self.offsets@[i + 1] as int,
                    ) =~= Seq::<u8>::empty());
                }
            }
            assert(self.spans() =~= old_spans.push(Seq::<u8>::empty()));
        }
    }
}

/// One output chunk under construction: the byte/offset buffer paired with
/// the validity accumulator. The validity stays empty while no page has
/// declared nullability.
pub struct Decoded {
    pub values: Binary,
    pub validity: Vec<bool>,
}

impl Decoded {
    /// Well-formedness: the buffer is well-formed, and the validity is
    /// either absent (empty) or tracks every row.
    pub open spec fn wf(self) -> bool {
        &&& self.values.wf()
        &&& self.validity@.len() == 0 || self.validity@.len() == self.values.num_rows()
    }

    /// Number of accumulated rows.
    pub fn len(&self) -> (r: usize)
        requires
            self.wf(),
        ensures
            r == self.values.num_rows(),
    {
        self.values.offsets.len() - 1
    }
}

} // verus!
