//! Decode-cursors: one tagged variant per Parquet encoding, tracking the
//! unread position within one page's encoded bytes.
//!
//! Each cursor is modelled by a [`CursorModel`]: the mathematical remainder
//! of its streams. `can1`/`val1`/`step1` say whether one more value can be
//! decoded, what it is, and what remains afterwards; `can`/`vals`/`steps`
//! iterate them. Every executable cursor operation is specified against
//! this model, and [`lemma_cursor_split`] shows that decoding splits:
//! pulling `k1` then `k2` values is the same as pulling `k1 + k2` at once.

use vstd::prelude::*;
use crate::error::DecodeError;
use crate::dict::BinaryDict;

verus! {

/// A copy of `src[from..to]` as a fresh vector.
pub fn copy_range(src: &Vec<u8>, from: usize, to: usize) -> (r: Vec<u8>)
    requires
        from <= to <= src@.len(),
    ensures
        r@ == src@.subrange(from as int, to as int),
{
    let mut r: Vec<u8> = Vec::new();
    let mut j: usize = from;
    while j < to
        invariant
            from <= j <= to <= src@.len(),
            r@ =~= src@.subrange(from as int, j as int),
        decreases to - j,
    {
        r.push(src[j]);
        proof {
            assert(r@ =~= src@.subrange(from as int, j + 1 as int));
        }
        j = j + 1;
    }
    r
}

/// Append `src[from..to]` to `dst`.
pub fn append_range(dst: &mut Vec<u8>, src: &Vec<u8>, from: usize, to: usize)
    requires
        from <= to <= src@.len(),
    ensures
        final(dst)@ == old(dst)@ + src@.subrange(from as int, to as int),
{
    let ghost base = dst@;
    let mut j: usize = from;
    while j < to
        invariant
            from <= j <= to <= src@.len(),
            dst@ =~= base + src@.subrange(from as int, j as int),
        decreases to - j,
    {
        dst.push(src[j]);
        proof {
            assert(dst@ =~= base + src@.subrange(from as int, j + 1 as int));
        }
        j = j + 1;
    }
    proof {
        assert(dst@ =~= base + src@.subrange(from as int, to as int));
    }
}

/// The little-endian 32-bit integer held in the first four bytes.
pub open spec fn le32(s: Seq<u8>) -> int
    recommends
        s.len() >= 4,
{
    s[0] + 0x100 * s[1] + 0x1_0000 * s[2] + 0x100_0000 * s[3]
}

/// The unread remainder of a decode-cursor, per encoding:
/// - `Plain`: raw length-prefixed value bytes;
/// - `Dictionary`: integer indices into a fixed dictionary;
/// - `Delta`: decoded value lengths plus the shared byte slab they slice;
/// - `DeltaBytes`: shared-prefix lengths, suffix lengths, the suffix slab,
///   and the previously reconstructed value.
pub enum CursorModel {
    Plain { bytes: Seq<u8> },
    Dictionary { dict: Seq<Seq<u8>>, indices: Seq<u32> },
    Delta { lengths: Seq<u32>, slab: Seq<u8> },
    DeltaBytes { prefixes: Seq<u32>, suffixes: Seq<u32>, slab: Seq<u8>, prev: Seq<u8> },
}

impl CursorModel {
    /// One more value can be decoded.
    pub open spec fn can1(self) -> bool {
        match self {
            CursorModel::Plain { bytes } => bytes.len() >= 4 && 4 + le32(bytes) <= bytes.len(),
            CursorModel::Dictionary { dict, indices } => indices.len() >= 1 && (indices[0]
                as int) < dict.len(),
            CursorModel::Delta { lengths, slab } => lengths.len() >= 1 && (lengths[0]
                as int) <= slab.len(),
            CursorModel::DeltaBytes { prefixes, suffixes, slab, prev } => prefixes.len() >= 1
                && suffixes.len() >= 1 && (prefixes[0] as int) <= prev.len() && (suffixes[0]
                as int) <= slab.len(),
        }
    }

    /// The next decoded value.
    pub open spec fn val1(self) -> Seq<u8>
        recommends
            self.can1(),
    {
        match self {
            CursorModel::Plain { bytes } => bytes.subrange(4, 4 + le32(bytes)),
            CursorModel::Dictionary { dict, indices } => dict[indices[0] as int],
            CursorModel::Delta { lengths, slab } => slab.take(lengths[0] as int),
            CursorModel::DeltaBytes { prefixes, suffixes, slab, prev } => prev.take(
                prefixes[0] as int,
            ) + slab.take(suffixes[0] as int),
        }
    }

    /// The remainder after decoding one value. The cursor only ever
    /// advances: consumed prefixes are gone for good.
    pub open spec fn step1(self) -> CursorModel
        recommends
            self.can1(),
    {
        match self {
            CursorModel::Plain { bytes } => CursorModel::Plain {
                bytes: bytes.skip(4 + le32(bytes)),
            },
            CursorModel::Dictionary { dict, indices } => CursorModel::Dictionary {
                dict,
                indices: indices.skip(1),
            },
            CursorModel::Delta { lengths, slab } => CursorModel::Delta {
                lengths: lengths.skip(1),
                slab: slab.skip(lengths[0] as int),
            },
            CursorModel::DeltaBytes { prefixes, suffixes, slab, prev } => CursorModel::DeltaBytes {
                prefixes: prefixes.skip(1),
                suffixes: suffixes.skip(1),
                slab: slab.skip(suffixes[0] as int),
                prev: prev.take(prefixes[0] as int) + slab.take(suffixes[0] as int),
            },
        }
    }

    /// The decode error reported when no further value can be decoded.
    pub open spec fn fail1(self) -> DecodeError
        recommends
            !self.can1(),
    {
        match self {
            CursorModel::Plain { bytes } => if bytes.len() < 4 {
                DecodeError::ExhaustedValues
            } else {
                DecodeError::TruncatedValue
            },
            CursorModel::Dictionary { dict: _, indices } => if indices.len() == 0 {
                DecodeError::ExhaustedValues
            } else {
                DecodeError::OutOfBoundsIndex
            },
            CursorModel::Delta { lengths, slab: _ } => if lengths.len() == 0 {
                DecodeError::ExhaustedValues
            } else {
                DecodeError::SlabTooShort
            },
            CursorModel::DeltaBytes { prefixes, suffixes, slab: _, prev } => if prefixes.len()
                == 0 || suffixes.len() == 0 {
                DecodeError::ExhaustedValues
            } else if (prefixes[0] as int) > prev.len() {
                DecodeError::PrefixTooLong
            } else {
                DecodeError::SlabTooShort
            },
        }
    }

    /// `k` values can be decoded in sequence.
    pub open spec fn can(self, k: nat) -> bool
        decreases k,
    {
        k == 0 || (self.can1() && self.step1().can((k - 1) as nat))
    }

    /// The next `k` decoded values.
    pub open spec fn vals(self, k: nat) -> Seq<Seq<u8>>
        recommends
            self.can(k),
        decreases k,
    {
        if k == 0 {
            Seq::empty()
        } else {
            seq![self.val1()] + self.step1().vals((k - 1) as nat)
        }
    }

    /// The remainder after decoding `k` values.
    pub open spec fn steps(self, k: nat) -> CursorModel
        recommends
            self.can(k),
        decreases k,
    {
        if k == 0 {
            self
        } else {
            self.step1().steps((k - 1) as nat)
        }
    }
}

/// Total byte length of a sequence of values.
pub open spec fn total_len(vals: Seq<Seq<u8>>) -> int
    decreases vals.len(),
{
    if vals.len() == 0 {
        0
    } else {
        vals[0].len() + total_len(vals.skip(1))
    }
}

pub proof fn lemma_total_len_nonneg(vals: Seq<Seq<u8>>)
    ensures
        total_len(vals) >= 0,
    decreases vals.len(),
{
    if vals.len() > 0 {
        lemma_total_len_nonneg(vals.skip(1));
    }
}

pub proof fn lemma_total_len_concat(a: Seq<Seq<u8>>, b: Seq<Seq<u8>>)
    ensures
        total_len(a + b) == total_len(a) + total_len(b),
    decreases a.len(),
{
    if a.len() == 0 {
        assert(a + b =~= b);
    } else {
        lemma_total_len_concat(a.skip(1), b);
        assert((a + b).skip(1) =~= a.skip(1) + b);
        assert((a + b)[0] == a[0]);
    }
}

/// A `k`-pull decodes exactly `k` values.
pub proof fn lemma_vals_len(c: CursorModel, k: nat)
    ensures
        c.vals(k).len() == k,
    decreases k,
{
    if k > 0 {
        lemma_vals_len(c.step1(), (k - 1) as nat);
    }
}

/// Decoding splits: a cursor that can produce `k1 + k2` values produces
/// exactly the values of a `k1`-pull followed by a `k2`-pull from the
/// advanced cursor, and ends in the same state. Splitting one page's rows
/// across two decode calls is therefore equivalent to one combined call.
pub proof fn lemma_cursor_split(c: CursorModel, k1: nat, k2: nat)
    ensures
        c.can(k1 + k2) == (c.can(k1) && c.steps(k1).can(k2)),
        c.can(k1 + k2) ==> c.vals(k1 + k2) == c.vals(k1) + c.steps(k1).vals(k2),
        c.can(k1 + k2) ==> c.steps(k1 + k2) == c.steps(k1).steps(k2),
    decreases k1,
{
    if k1 == 0 {
        assert(c.can(k1) && c.steps(k1) == c);
        if c.can(k2) {
            assert(c.vals(0) + c.vals(k2) =~= c.vals(k2));
        }
    } else {
        if c.can1() {
            lemma_cursor_split(c.step1(), (k1 - 1) as nat, k2);
            assert(c.can(k1 + k2) == (c.can1() && c.step1().can((k1 + k2 - 1) as nat)));
            if c.can(k1 + k2) {
                assert(c.vals(k1 + k2) == seq![c.val1()] + c.step1().vals((k1 + k2 - 1) as nat));
                assert(c.step1().vals(((k1 - 1) + k2) as nat) == c.step1().vals((k1 - 1) as nat)
                    + c.step1().steps((k1 - 1) as nat).vals(k2));
                assert(seq![c.val1()] + (c.step1().vals((k1 - 1) as nat) + c.steps(k1).vals(k2))
                    =~= (seq![c.val1()] + c.step1().vals((k1 - 1) as nat)) + c.steps(k1).vals(
                    k2,
                ));
            }
        } else {
            assert(!c.can(k1 + k2) && !c.can(k1));
        }
    }
}

/// Cursor over a raw length-prefixed byte stream: each value is a
/// little-endian 32-bit byte count followed by that many bytes.
pub struct PlainCursor {
    pub bytes: Vec<u8>,
    pub pos: usize,
    pub rows_left: usize,
}

impl PlainCursor {
    pub open spec fn wf(self) -> bool {
        self.pos <= self.bytes@.len()
    }

    pub open spec fn model(self) -> CursorModel {
        CursorModel::Plain { bytes: self.bytes@.skip(self.pos as int) }
    }

    pub fn new(bytes: Vec<u8>, rows: usize) -> (r: PlainCursor)
        ensures
            r.wf(),
            r.model() == (CursorModel::Plain { bytes: bytes@ }),
            r.rows_left == rows,
    {
        let r = PlainCursor { bytes, pos: 0, rows_left: rows };
        proof {
            assert(r.bytes@.skip(0) =~= r.bytes@);
        }
        r
    }

    /// Advance past the next value, reporting where its bytes stand.
    pub(crate) fn next_span(&mut self) -> (r: Result<(usize, usize), DecodeError>)
        requires
            old(self).wf(),
        ensures
            final(self).wf(),
            final(self).bytes == old(self).bytes,
            r is Ok ==> final(self).rows_left as int == (if old(self).rows_left as int >= 1 {
                old(self).rows_left - 1
            } else {
                0
            }),
            match r {
                Ok(se) => {
                    &&& old(self).model().can1()
                    &&& se.0 <= se.1 <= final(self).bytes@.len()
                    &&& old(self).bytes@.subrange(se.0 as int, se.1 as int) == old(
                        self,
                    ).model().val1()
                    &&& final(self).model() == old(self).model().step1()
                },
                Err(e) => {
                    &&& !old(self).model().can1()
                    &&& e == old(self).model().fail1()
                    &&& *final(self) == *old(self)
                },
            },
    {
        let ghost m = self.model();
        let avail = self.bytes.len() - self.pos;
        if avail < 4 {
            return Err(DecodeError::ExhaustedValues);
        }
        let b0 = self.bytes[self.pos] as u64;
        let b1 = self.bytes[self.pos + 1] as u64;
        let b2 = self.bytes[self.pos + 2] as u64;
        let b3 = self.bytes[self.pos + 3] as u64;
        let l: u64 = b0 + 0x100 * b1 + 0x1_0000 * b2 + 0x100_0000 * b3;
        proof {
            assert(l as int == le32(m->Plain_bytes));
        }
        if l > (avail - 4) as u64 {
            return Err(DecodeError::TruncatedValue);
        }
        let start = self.pos + 4;
        let end = start + (l as usize);
        self.pos = end;
        self.rows_left = if self.rows_left > 0 {
            self.rows_left - 1
        } else {
            0
        };
        proof {
            assert(old(self).bytes@.subrange(start as int, end as int) =~= m->Plain_bytes.subrange(
                4,
                4 + le32(m->Plain_bytes),
            ));
            assert(self.bytes@.skip(end as int) =~= m->Plain_bytes.skip(4 + le32(m->Plain_bytes)));
        }
        Ok((start, end))
    }
}

/// Cursor over a stream of integer indices resolved against the page
/// dictionary. The cursor keeps its own copy of the dictionary.
pub struct DictionaryCursor {
    pub dict: BinaryDict,
    pub indices: Vec<u32>,
    pub pos: usize,
}

impl DictionaryCursor {
    pub open spec fn wf(self) -> bool {
        self.pos <= self.indices@.len()
    }

    pub open spec fn model(self) -> CursorModel {
        CursorModel::Dictionary {
            dict: self.dict.entries(),
            indices: self.indices@.skip(self.pos as int),
        }
    }

    pub fn new(dict: BinaryDict, indices: Vec<u32>) -> (r: DictionaryCursor)
        ensures
            r.wf(),
            r.model() == (CursorModel::Dictionary { dict: dict.entries(), indices: indices@ }),
    {
        let r = DictionaryCursor { dict, indices, pos: 0 };
        proof {
            assert(r.indices@.skip(0) =~= r.indices@);
        }
        r
    }

    /// Resolve the next index, or advance without materializing.
    pub(crate) fn advance(&mut self, want_value: bool) -> (r: Result<Option<Vec<u8>>, DecodeError>)
        requires
            old(self).wf(),
        ensures
            final(self).wf(),
            r is Ok ==> final(self).indices == old(self).indices && final(self).pos == old(
                self,
            ).pos + 1,
            match r {
                Ok(v) => {
                    &&& old(self).model().can1()
                    &&& final(self).model() == old(self).model().step1()
                    &&& (v is Some <==> want_value)
                    &&& v is Some ==> v->0@ == old(self).model().val1()
                },
                Err(e) => {
                    &&& !old(self).model().can1()
                    &&& e == old(self).model().fail1()
                    &&& *final(self) == *old(self)
                },
            },
    {
        if self.pos >= self.indices.len() {
            return Err(DecodeError::ExhaustedValues);
        }
        let idx = self.indices[self.pos] as usize;
        if idx >= self.dict.len() {
            return Err(DecodeError::OutOfBoundsIndex);
        }
        let v = if want_value {
            let entry = self.dict.value(idx);
            let c = copy_range(entry, 0, entry.len());
            proof {
                assert(c@ =~= self.dict.entries()[idx as int]);
            }
            Some(c)
        } else {
            None
        };
        self.pos = self.pos + 1;
        proof {
            assert(self.indices@.skip(self.pos as int) =~= old(self).indices@.skip(
                old(self).pos as int,
            ).skip(1));
        }
        Ok(v)
    }
}

/// Cursor over a decoded length stream plus a shared raw byte slab; each
/// consumed length slices that many bytes off the slab's moving front.
pub struct DeltaCursor {
    pub lengths: Vec<u32>,
    pub lpos: usize,
    pub slab: Vec<u8>,
    pub spos: usize,
}

impl DeltaCursor {
    pub open spec fn wf(self) -> bool {
        self.lpos <= self.lengths@.len() && self.spos <= self.slab@.len()
    }

    pub open spec fn model(self) -> CursorModel {
        CursorModel::Delta {
            lengths: self.lengths@.skip(self.lpos as int),
            slab: self.slab@.skip(self.spos as int),
        }
    }

    pub fn new(lengths: Vec<u32>, slab: Vec<u8>) -> (r: DeltaCursor)
        ensures
            r.wf(),
            r.model() == (CursorModel::Delta { lengths: lengths@, slab: slab@ }),
    {
        let r = DeltaCursor { lengths, slab, lpos: 0, spos: 0 };
        proof {
            assert(r.lengths@.skip(0) =~= r.lengths@);
            assert(r.slab@.skip(0) =~= r.slab@);
        }
        r
    }

    /// Slice the next value off the slab, or advance without materializing.
    pub(crate) fn advance(&mut self, want_value: bool) -> (r: Result<Option<Vec<u8>>, DecodeError>)
        requires
            old(self).wf(),
        ensures
            final(self).wf(),
            r is Ok ==> final(self).lengths == old(self).lengths && final(self).lpos == old(
                self,
            ).lpos + 1,
            match r {
                Ok(v) => {
                    &&& old(self).model().can1()
                    &&& final(self).model() == old(self).model().step1()
                    &&& (v is Some <==> want_value)
                    &&& v is Some ==> v->0@ == old(self).model().val1()
                },
                Err(e) => {
                    &&& !old(self).model().can1()
                    &&& e == old(self).model().fail1()
                    &&& *final(self) == *old(self)
                },
            },
    {
        if self.lpos >= self.lengths.len() {
            return Err(DecodeError::ExhaustedValues);
        }
        let l = self.lengths[self.lpos] as usize;
        if l > self.slab.len() - self.spos {
            return Err(DecodeError::SlabTooShort);
        }
        let v = if want_value {
            let c = copy_range(&self.slab, self.spos, self.spos + l);
            proof {
                assert(c@ =~= self.slab@.skip(self.spos as int).take(l as int));
            }
            Some(c)
        } else {
            None
        };
        self.lpos = self.lpos + 1;
        self.spos = self.spos + l;
        proof {
            assert(self.lengths@.skip(self.lpos as int) =~= old(self).lengths@.skip(
                old(self).lpos as int,
            ).skip(1));
            assert(self.slab@.skip(self.spos as int) =~= old(self).slab@.skip(
                old(self).spos as int,
            ).skip(l as int));
        }
        Ok(v)
    }
}

/// Cursor combining a shared-prefix length stream and a suffix byte
/// stream: each value is the previous value's prefix plus fresh suffix
/// bytes sliced off the slab.
pub struct DeltaBytesCursor {
    pub prefixes: Vec<u32>,
    pub suffixes: Vec<u32>,
    pub pos: usize,
    pub slab: Vec<u8>,
    pub spos: usize,
    pub prev: Vec<u8>,
}

impl DeltaBytesCursor {
    pub open spec fn wf(self) -> bool {
        self.pos <= self.prefixes@.len() && self.pos <= self.suffixes@.len()
            && self.spos <= self.slab@.len()
    }

    pub open spec fn model(self) -> CursorModel {
        CursorModel::DeltaBytes {
            prefixes: self.prefixes@.skip(self.pos as int),
            suffixes: self.suffixes@.skip(self.pos as int),
            slab: self.slab@.skip(self.spos as int),
            prev: self.prev@,
        }
    }

    pub fn new(prefixes: Vec<u32>, suffixes: Vec<u32>, slab: Vec<u8>) -> (r: DeltaBytesCursor)
        ensures
            r.wf(),
            r.model() == (CursorModel::DeltaBytes {
                prefixes: prefixes@,
                suffixes: suffixes@,
                slab: slab@,
                prev: Seq::<u8>::empty(),
            }),
    {
        let r = DeltaBytesCursor {
            prefixes,
            suffixes,
            pos: 0,
            slab,
            spos: 0,
            prev: Vec::new(),
        };
        proof {
            assert(r.prefixes@.skip(0) =~= r.prefixes@);
            assert(r.suffixes@.skip(0) =~= r.suffixes@);
            assert(r.slab@.skip(0) =~= r.slab@);
        }
        r
    }

    /// Reconstruct the next value by prefix-sharing. Even a skip must
    /// re-derive the prefix state, so the value is always rebuilt.
    pub(crate) fn advance(&mut self, want_value: bool) -> (r: Result<Option<Vec<u8>>, DecodeError>)
        requires
            old(self).wf(),
        ensures
            final(self).wf(),
            r is Ok ==> final(self).prefixes == old(self).prefixes && final(self).pos == old(
                self,
            ).pos + 1,
            match r {
                Ok(v) => {
                    &&& old(self).model().can1()
                    &&& final(self).model() == old(self).model().step1()
                    &&& (v is Some <==> want_value)
                    &&& v is Some ==> v->0@ == old(self).model().val1()
                },
                Err(e) => {
                    &&& !old(self).model().can1()
                    &&& e == old(self).model().fail1()
                    &&& *final(self) == *old(self)
                },
            },
    {
        if self.pos >= self.prefixes.len() || self.pos >= self.suffixes.len() {
            return Err(DecodeError::ExhaustedValues);
        }
        let p = self.prefixes[self.pos] as usize;
        let s = self.suffixes[self.pos] as usize;
        if p > self.prev.len() {
            return Err(DecodeError::PrefixTooLong);
        }
        if s > self.slab.len() - self.spos {
            return Err(DecodeError::SlabTooShort);
        }
        let mut value = copy_range(&self.prev, 0, p);
        append_range(&mut value, &self.slab, self.spos, self.spos + s);
        proof {
            assert(value@ =~= old(self).model().val1());
        }
        let out = if want_value {
            let c = copy_range(&value, 0, value.len());
            proof {
                assert(c@ =~= value@);
            }
            Some(c)
        } else {
            None
        };
        self.prev = value;
        self.pos = self.pos + 1;
        self.spos = self.spos + s;
        proof {
            assert(self.prefixes@.skip(self.pos as int) =~= old(self).prefixes@.skip(
                old(self).pos as int,
            ).skip(1));
            assert(self.suffixes@.skip(self.pos as int) =~= old(self).suffixes@.skip(
                old(self).pos as int,
            ).skip(1));
            assert(self.slab@.skip(self.spos as int) =~= old(self).slab@.skip(
                old(self).spos as int,
            ).skip(s as int));
        }
        Ok(out)
    }
}

/// The decode-cursor over one page's encoded bytes: a closed sum over the
/// four binary encodings, dispatched once per page.
pub enum BinaryStateTranslation {
    Plain(PlainCursor),
    Dictionary(DictionaryCursor),
    Delta(DeltaCursor),
    DeltaBytes(DeltaBytesCursor),
}

impl BinaryStateTranslation {
    pub open spec fn wf(self) -> bool {
        match self {
            BinaryStateTranslation::Plain(c) => c.wf(),
            BinaryStateTranslation::Dictionary(c) => c.wf(),
            BinaryStateTranslation::Delta(c) => c.wf(),
            BinaryStateTranslation::DeltaBytes(c) => c.wf(),
        }
    }

    pub open spec fn model(self) -> CursorModel {
        match self {
            BinaryStateTranslation::Plain(c) => c.model(),
            BinaryStateTranslation::Dictionary(c) => c.model(),
            BinaryStateTranslation::Delta(c) => c.model(),
            BinaryStateTranslation::DeltaBytes(c) => c.model(),
        }
    }

    /// How many rows remain decodable assuming no nulls.
    pub open spec fn hint(self) -> int {
        match self {
            BinaryStateTranslation::Plain(c) => c.rows_left as int,
            BinaryStateTranslation::Dictionary(c) => c.indices@.len() - c.pos,
            BinaryStateTranslation::Delta(c) => c.lengths@.len() - c.lpos,
            BinaryStateTranslation::DeltaBytes(c) => c.prefixes@.len() - c.pos,
        }
    }

    /// Values decoded through a dictionary were UTF-8-checked when the
    /// dictionary was built, so an extend never rechecks them.
    pub open spec fn skips_validation(self) -> bool {
        self is Dictionary || self is DeltaBytes
    }

    /// How many rows remain decodable assuming no nulls.
    pub fn len_when_not_nullable(&self) -> (r: usize)
        requires
            self.wf(),
        ensures
            r == self.hint(),
    {
        match self {
            BinaryStateTranslation::Plain(c) => c.rows_left,
            BinaryStateTranslation::Dictionary(c) => c.indices.len() - c.pos,
            BinaryStateTranslation::Delta(c) => c.lengths.len() - c.lpos,
            BinaryStateTranslation::DeltaBytes(c) => c.prefixes.len() - c.pos,
        }
    }

    /// Decode one value and advance, or report why none can be decoded.
    pub fn pull_one(&mut self) -> (r: Result<Vec<u8>, DecodeError>)
        requires
            old(self).wf(),
        ensures
            final(self).wf(),
            final(self).skips_validation() == old(self).skips_validation(),
            r is Ok ==> final(self).hint() == (if old(self).hint() >= 1 {
                old(self).hint() - 1
            } else {
                0
            }),
            r is Err ==> final(self).hint() == old(self).hint(),
            match r {
                Ok(v) => {
                    &&& old(self).model().can1()
                    &&& v@ == old(self).model().val1()
                    &&& final(self).model() == old(self).model().step1()
                },
                Err(e) => {
                    &&& !old(self).model().can1()
                    &&& e == old(self).model().fail1()
                    &&& final(self).model() == old(self).model()
                },
            },
    {
        match self {
            BinaryStateTranslation::Plain(c) => {
                match c.next_span() {
                    Ok((start, end)) => {
                        let v = copy_range(&c.bytes, start, end);
                        Ok(v)
                    },
                    Err(e) => Err(e),
                }
            },
            BinaryStateTranslation::Dictionary(c) => {
                match c.advance(true) {
                    Ok(v) => Ok(v.unwrap()),
                    Err(e) => Err(e),
                }
            },
            BinaryStateTranslation::Delta(c) => {
                match c.advance(true) {
                    Ok(v) => Ok(v.unwrap()),
                    Err(e) => Err(e),
                }
            },
            BinaryStateTranslation::DeltaBytes(c) => {
                match c.advance(true) {
                    Ok(v) => Ok(v.unwrap()),
                    Err(e) => Err(e),
                }
            },
        }
    }

    /// Advance past one value without materializing it.
    fn skip_one(&mut self) -> (r: Result<(), DecodeError>)
        requires
            old(self).wf(),
        ensures
            final(self).wf(),
            final(self).skips_validation() == old(self).skips_validation(),
            r is Ok ==> final(self).hint() == (if old(self).hint() >= 1 {
                old(self).hint() - 1
            } else {
                0
            }),
            r is Err ==> final(self).hint() == old(self).hint(),
            match r {
                Ok(()) => {
                    &&& old(self).model().can1()
                    &&& final(self).model() == old(self).model().step1()
                },
                Err(e) => {
                    &&& !old(self).model().can1()
                    &&& e == old(self).model().fail1()
                    &&& final(self).model() == old(self).model()
                },
            },
    {
        match self {
            BinaryStateTranslation::Plain(c) => {
                match c.next_span() {
                    Ok(_) => Ok(()),
                    Err(e) => Err(e),
                }
            },
            BinaryStateTranslation::Dictionary(c) => {
                match c.advance(false) {
                    Ok(_) => Ok(()),
                    Err(e) => Err(e),
                }
            },
            BinaryStateTranslation::Delta(c) => {
                match c.advance(false) {
                    Ok(_) => Ok(()),
                    Err(e) => Err(e),
                }
            },
            BinaryStateTranslation::DeltaBytes(c) => {
                match c.advance(false) {
                    Ok(_) => Ok(()),
                    Err(e) => Err(e),
                }
            },
        }
    }

    /// Advance past `n` values without producing them, re-deriving any
    /// prefix state on the way; used when a row filter discards a run.
    pub fn skip_in_place(&mut self, n: usize) -> (r: Result<(), DecodeError>)
        requires
            old(self).wf(),
        ensures
            final(self).wf(),
            final(self).skips_validation() == old(self).skips_validation(),
            r is Ok <==> old(self).model().can(n as nat),
            r is Ok ==> final(self).model() == old(self).model().steps(n as nat),
            r is Ok ==> final(self).hint() == (if old(self).hint() >= n as int {
                old(self).hint() - n
            } else {
                0
            }),
            r is Err ==> exists|j: nat|
                j < n && old(self).model().can(j) && !old(self).model().steps(j).can1() && r
                    == Err::<(), DecodeError>(old(self).model().steps(j).fail1()),
    {
        let ghost m0 = old(self).model();
        let ghost h0 = old(self).hint();
        let mut i: usize = 0;
        while i < n
            invariant
                i <= n,
                self.wf(),
                self.skips_validation() == old(self).skips_validation(),
                m0 == old(self).model(),
                m0.can(i as nat),
                self.model() == m0.steps(i as nat),
                self.hint() == (if h0 >= i as int {
                    h0 - i
                } else {
                    0
                }),
            decreases n - i,
        {
            let ghost mi = self.model();
            match self.skip_one() {
                Ok(()) => {
                    proof {
                        lemma_cursor_split(m0, i as nat, 1);
                        assert(mi.step1().can(0));
                        assert(mi.step1().steps(0) == mi.step1());
                        assert(mi.can(1) && mi.steps(1) == mi.step1());
                        assert(m0.can(i as nat + 1));
                        lemma_cursor_split(m0, i as nat, 1);
                        assert(m0.steps(i as nat + 1) == mi.steps(1));
                    }
                },
                Err(e) => {
                    proof {
                        assert(!mi.can1());
                        lemma_cursor_split(m0, i as nat, (n - i) as nat);
                        assert(!m0.can(n as nat));
                        assert(m0.can(i as nat) && !m0.steps(i as nat).can1() && e == m0.steps(
                            i as nat,
                        ).fail1());
                    }
                    return Err(e);
                },
            }
            i = i + 1;
        }
        Ok(())
    }
}

} // verus!
