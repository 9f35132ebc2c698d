//! The chunked pull-iterator: drives pages through the decoder,
//! accumulates output across page boundaries, and yields fixed-size (or
//! final partial) arrays, bounded by a total row budget.

use vstd::prelude::*;
use crate::array::{finish, ArrayKind, BinaryArray};
use crate::buffer::{Binary, Decoded};
use crate::cursor::{lemma_vals_len, BinaryStateTranslation, CursorModel};
use crate::decode::{
    count_trues, interleave, lemma_interleave_len, BinaryDecoder, Page, PageValidity,
};
use crate::dict::BinaryDict;
use crate::error::DecodeError;

verus! {

/// Outcome of one unit of the iterator's internal work: a chunk is ready,
/// decoding failed, the source is exhausted, or progress was made and the
/// trampoline should loop again. The explicit sum type keeps stack usage
/// independent of the page count.
pub enum MaybeNext {
    Ready(BinaryArray),
    Failed(DecodeError),
    Finished,
    Again,
}

/// The partially consumed current data page: its decode-cursor, its
/// null-run descriptor, and how many of its rows are still undecoded.
pub struct PageState {
    pub cursor: BinaryStateTranslation,
    pub validity: Option<PageValidity>,
    pub rows_left: usize,
}

/// Pull-iterator yielding one decoded array per chunk of rows.
///
/// Holds the queued pages, the accumulator under construction, the cached
/// dictionary, the configured chunk size (`None` meaning one array for
/// everything), and the remaining total row budget.
pub struct BinaryArrayIter {
    pub pages: Vec<Page>,
    pub kind: ArrayKind,
    pub pending: Decoded,
    pub dict: Option<BinaryDict>,
    pub current: Option<PageState>,
    pub chunk_size: Option<usize>,
    pub remaining: usize,
    pub failed: bool,
}

impl BinaryArrayIter {
    pub open spec fn wf(self) -> bool {
        &&& self.pending.wf()
        &&& self.pending.values.wide == self.kind.is_wide()
        &&& (self.chunk_size is Some ==> self.chunk_size->0 >= 1
            && self.pending.values.num_rows() <= self.chunk_size->0)
        &&& match self.current {
            Option::Some(ps) => ps.cursor.wf() && (ps.validity is Some
                ==> ps.validity->0.wf()),
            Option::None => true,
        }
    }

    /// Rows accumulated in the chunk under assembly.
    pub open spec fn pending_rows(self) -> int {
        self.pending.values.num_rows()
    }

    /// Nothing further can be decoded: the row budget is spent, or the
    /// page source is exhausted and no page is partially consumed.
    pub open spec fn exhausted(self) -> bool {
        self.remaining == 0 || (self.pages@.len() == 0 && self.current is None)
    }

    /// Pages not yet consumed.
    pub open spec fn pages_left(self) -> int {
        self.pages@.len() as int
    }

    /// Whether a partially consumed page is active.
    pub open spec fn cur_flag(self) -> int {
        if self.current is Some {
            1
        } else {
            0
        }
    }

    /// Undecoded rows of the active page.
    pub open spec fn cur_rows(self) -> int {
        match self.current {
            Option::Some(ps) => ps.rows_left as int,
            Option::None => 0,
        }
    }

    /// A fresh iterator over `pages`, emitting arrays of `kind`, each of
    /// at most `chunk_size` rows, and at most `num_rows` rows in all.
    pub fn new(pages: Vec<Page>, kind: ArrayKind, chunk_size: Option<usize>, num_rows: usize) -> (r:
        BinaryArrayIter)
        requires
            chunk_size is Some ==> chunk_size->0 >= 1,
        ensures
            r.wf(),
            r.kind == kind,
            r.chunk_size == chunk_size,
            r.remaining == num_rows,
            r.pages == pages,
            !r.failed,
            r.pending_rows() == 0,
            r.pending.validity@.len() == 0,
            r.pending.values.values@.len() == 0,
            r.dict is None,
            r.current is None,
    {
        let pending = Decoded { values: Binary::with_capacity(0, kind.wide()), validity: Vec::new() };
        BinaryArrayIter {
            pages,
            kind,
            pending,
            dict: Option::None,
            current: Option::None,
            chunk_size,
            remaining: num_rows,
            failed: false,
        }
    }

    /// Move the accumulator out, leaving a fresh empty one.
    fn take_pending(&mut self) -> (d: Decoded)
        ensures
            d == old(self).pending,
            final(self).pending.wf(),
            final(self).pending.values.wide == old(self).kind.is_wide(),
            final(self).pending.values.num_rows() == 0,
            final(self).pending.validity@.len() == 0,
            final(self).pages == old(self).pages,
            final(self).kind == old(self).kind,
            final(self).dict == old(self).dict,
            final(self).current == old(self).current,
            final(self).chunk_size == old(self).chunk_size,
            final(self).remaining == old(self).remaining,
            final(self).failed == old(self).failed,
    {
        let mut d = Decoded { values: Binary::with_capacity(0, self.kind.wide()), validity: Vec::new() };
        core::mem::swap(&mut d, &mut self.pending);
        d
    }

    /// One unit of work: emit a ready chunk, consume one page head, or
    /// decode a bounded run of rows from the active page.
    #[verifier::loop_isolation(false)]
    #[verifier::rlimit(100)]
    fn step(&mut self, decoder: &mut BinaryDecoder) -> (r: MaybeNext)
        requires
            old(self).wf(),
            old(decoder).kind == old(self).kind,
        ensures
            final(self).wf(),
            final(self).kind == old(self).kind,
            final(self).chunk_size == old(self).chunk_size,
            final(decoder).kind == old(decoder).kind,
            old(self).failed ==> r is Finished && final(self).failed,
            r is Failed ==> final(self).failed,
            final(self).failed == (old(self).failed || r is Failed),
            r is Again ==> {
                ||| final(self).pages_left() < old(self).pages_left()
                ||| (final(self).pages_left() == old(self).pages_left()
                    && final(self).cur_flag() < old(self).cur_flag())
                ||| (final(self).pages_left() == old(self).pages_left()
                    && final(self).cur_flag() == old(self).cur_flag()
                    && final(self).cur_rows() < old(self).cur_rows())
            },
            r is Ready ==> r->Ready_0.wf() && r->Ready_0.kind == old(self).kind
                && r->Ready_0.num_rows() >= 1 && (old(self).chunk_size is Some
                ==> r->Ready_0.num_rows() <= old(self).chunk_size->0),
            r is Again ==> final(self).remaining + final(self).pending_rows()
                == old(self).remaining + old(self).pending_rows(),
            r is Ready ==> old(self).remaining + old(self).pending_rows()
                == final(self).remaining + final(self).pending_rows() + r->Ready_0.num_rows()
                && final(self).pending_rows() == 0,
            r is Ready && (old(self).chunk_size is None
                || r->Ready_0.num_rows() < old(self).chunk_size->0) ==> final(self).exhausted(),
            r is Failed ==> final(self).pending_rows() == 0,
            r is Finished ==> final(self).failed
                || (final(self).pending_rows() == 0 && final(self).exhausted()),
            !old(self).failed && old(self).pending_rows() == 0 && old(self).exhausted() ==> r
                is Finished,
            ({
                let gate = !old(self).failed && (old(self).chunk_size is Some
                    ==> old(self).pending_rows() < old(self).chunk_size->0) && old(
                    self,
                ).remaining > 0 && old(self).current is None && old(self).pages@.len() > 0;
                (gate && old(self).pages@[0] is Dict) ==> {
                    &&& final(self).pages@ == old(self).pages@.skip(1)
                    &&& (r is Again ==> final(self).dict is Some
                        && final(self).dict->0.entries() == (CursorModel::Plain {
                        bytes: old(self).pages@[0]->Dict_0.buffer@,
                    }).vals(old(self).pages@[0]->Dict_0.num_values as nat))
                }
            }),
    {
        if self.failed {
            return MaybeNext::Finished;
        }
        let plen = self.pending.len();
        let full = match self.chunk_size {
            Option::Some(cs) => plen >= cs,
            Option::None => false,
        };
        if full {
            let d = self.take_pending();
            return MaybeNext::Ready(finish(&self.kind, d.values, d.validity));
        }
        if self.remaining == 0 {
            if plen > 0 {
                let d = self.take_pending();
                return MaybeNext::Ready(finish(&self.kind, d.values, d.validity));
            }
            return MaybeNext::Finished;
        }
        if self.current.is_none() {
            if self.pages.len() == 0 {
                if plen > 0 {
                    let d = self.take_pending();
                    return MaybeNext::Ready(finish(&self.kind, d.values, d.validity));
                }
                return MaybeNext::Finished;
            }
            let page = self.pages.remove(0);
            proof {
                assert(old(self).pages@.remove(0) =~= old(self).pages@.skip(1));
            }
            match page {
                Page::Dict(dp) => {
                    match decoder.deserialize_dict(dp) {
                        Ok(d) => {
                            self.dict = Option::Some(d);
                            return MaybeNext::Again;
                        },
                        Err(e) => {
                            self.failed = true;
                            let _ = self.take_pending();
                            return MaybeNext::Failed(e);
                        },
                    }
                },
                Page::Data(dp) => {
                    let rows = dp.num_rows;
                    match BinaryStateTranslation::new(decoder, dp, &self.dict) {
                        Ok((cursor, validity)) => {
                            self.current = Option::Some(
                                PageState { cursor, validity, rows_left: rows },
                            );
                            return MaybeNext::Again;
                        },
                        Err(e) => {
                            self.failed = true;
                            let _ = self.take_pending();
                            return MaybeNext::Failed(e);
                        },
                    }
                },
            }
        }
        let rows_left = match &self.current {
            Option::Some(ps) => ps.rows_left,
            Option::None => 0,
        };
        if rows_left == 0 {
            self.current = Option::None;
            return MaybeNext::Again;
        }
        let mut t = rows_left;
        if self.remaining < t {
            t = self.remaining;
        }
        match self.chunk_size {
            Option::Some(cs) => {
                if cs - plen < t {
                    t = cs - plen;
                }
            },
            Option::None => {},
        }
        let ghost plen0 = self.pending.values.num_rows();
        let outcome: Result<(), DecodeError>;
        match &mut self.current {
            Option::Some(ps) => {
                let ghost m0 = ps.cursor.model();
                let has_descriptor = ps.validity.is_some();
                if has_descriptor {
                    pad_validity(&mut self.pending);
                    let ghost rem0 = ps.validity->0.rem();
                    outcome = ps.cursor.extend_from_state(
                        decoder,
                        &mut self.pending,
                        &mut ps.validity,
                        t,
                    );
                    proof {
                        if outcome is Ok {
                            let bits = rem0.take(t as int);
                            let k = count_trues(bits);
                            lemma_vals_len(m0, k);
                            lemma_interleave_len(bits, m0.vals(k));
                            assert(bits.len() == t as int);
                            assert(interleave(bits, m0.vals(k)).len() == t as int);
                            assert(self.pending.values.spans().len() == plen0 + t);
                            assert(self.pending.values.num_rows() == plen0 + t);
                        }
                    }
                } else if self.pending.validity.len() > 0 {
                    pad_validity(&mut self.pending);
                    let mut all_valid: Option<PageValidity> = Option::Some(
                        PageValidity::new(make_trues(t)),
                    );
                    let ghost rem0 = all_valid->0.rem();
                    outcome = ps.cursor.extend_from_state(
                        decoder,
                        &mut self.pending,
                        &mut all_valid,
                        t,
                    );
                    proof {
                        if outcome is Ok {
                            let bits = rem0.take(t as int);
                            let k = count_trues(bits);
                            lemma_vals_len(m0, k);
                            lemma_interleave_len(bits, m0.vals(k));
                            assert(bits.len() == t as int);
                            assert(interleave(bits, m0.vals(k)).len() == t as int);
                            assert(self.pending.values.spans().len() == plen0 + t);
                            assert(self.pending.values.num_rows() == plen0 + t);
                        }
                    }
                } else {
                    let mut no_descriptor: Option<PageValidity> = Option::None;
                    outcome = ps.cursor.extend_from_state(
                        decoder,
                        &mut self.pending,
                        &mut no_descriptor,
                        t,
                    );
                    proof {
                        if outcome is Ok {
                            lemma_vals_len(m0, t as nat);
                            assert(m0.vals(t as nat).len() == t as int);
                            assert(self.pending.values.spans().len() == plen0 + t);
                            assert(self.pending.values.num_rows() == plen0 + t);
                        }
                    }
                }
                if outcome.is_ok() {
                    ps.rows_left = ps.rows_left - t;
                }
            },
            Option::None => {
                proof {
                    assert(false);
                }
                outcome = Ok(());
            },
        }
        match outcome {
            Ok(()) => {
                self.remaining = self.remaining - t;
                MaybeNext::Again
            },
            Err(e) => {
                self.failed = true;
                let _ = self.take_pending();
                self.current = Option::None;
                MaybeNext::Failed(e)
            },
        }
    }

    /// Produce the next array: loop the trampoline until a chunk is
    /// ready, an error surfaces, or the source and budget are exhausted.
    /// Once an error has been yielded, every later call yields
    /// end-of-sequence and no partial state is exposed.
    pub fn next(&mut self) -> (r: Option<Result<BinaryArray, DecodeError>>)
        requires
            old(self).wf(),
        ensures
            final(self).wf(),
            final(self).kind == old(self).kind,
            final(self).chunk_size == old(self).chunk_size,
            old(self).failed ==> r is None,
            !old(self).failed && old(self).pending_rows() == 0 && old(self).exhausted() ==> r
                is None,
            r is None ==> final(self).failed
                || (final(self).pending_rows() == 0 && final(self).exhausted()),
            match r {
                Option::Some(res) => match res {
                    Result::Ok(a) => a.wf() && a.kind == old(self).kind && a.num_rows() >= 1
                        && !final(self).failed && final(self).pending_rows() == 0
                        && a.num_rows() + final(self).remaining
                            == old(self).remaining + old(self).pending_rows()
                        && (old(self).chunk_size is Some
                            ==> a.num_rows() <= old(self).chunk_size->0)
                        && ((old(self).chunk_size is None
                            || a.num_rows() < old(self).chunk_size->0)
                            ==> final(self).exhausted()),
                    Result::Err(_) => final(self).failed && final(self).pending_rows() == 0,
                },
                Option::None => true,
            },
    {
        let k = self.kind;
        let mut decoder = BinaryDecoder::new(k);
        loop
            invariant
                self.wf(),
                decoder.kind == self.kind,
                self.kind == old(self).kind,
                self.chunk_size == old(self).chunk_size,
                self.failed == old(self).failed,
                self.remaining + self.pending_rows()
                    == old(self).remaining + old(self).pending_rows(),
                (!old(self).failed && old(self).pending_rows() == 0 && old(self).exhausted())
                    ==> (!self.failed && self.pending_rows() == 0 && self.exhausted()),
            decreases self.pages@.len(), self.cur_flag(), self.cur_rows(),
        {
            match self.step(&mut decoder) {
                MaybeNext::Ready(a) => {
                    return Option::Some(Ok(a));
                },
                MaybeNext::Failed(e) => {
                    return Option::Some(Err(e));
                },
                MaybeNext::Finished => {
                    return Option::None;
                },
                MaybeNext::Again => {},
            }
        }
    }
}

/// Extend the validity accumulator with `true` bits until it tracks every
/// accumulated row; rows decoded before any page declared nullability are
/// all valid.
fn pad_validity(d: &mut Decoded)
    requires
        old(d).wf(),
    ensures
        final(d).wf(),
        final(d).values == old(d).values,
        final(d).validity@.len() == final(d).values.num_rows(),
        forall|i: int| 0 <= i < old(d).validity@.len() ==> final(d).validity@[i] == old(
            d,
        ).validity@[i],
        forall|i: int|
            old(d).validity@.len() <= i < final(d).validity@.len() ==> final(d).validity@[i]
                == true,
    {
    let rows = d.values.offsets.len() - 1;
    while d.validity.len() < rows
        invariant
            d.values == old(d).values,
            rows == d.values.num_rows(),
            d.validity@.len() <= rows,
            forall|i: int| 0 <= i < old(d).validity@.len() ==> d.validity@[i] == old(
                d,
            ).validity@[i],
            forall|i: int|
                old(d).validity@.len() <= i < d.validity@.len() ==> d.validity@[i] == true,
            old(d).validity@.len() <= d.validity@.len(),
        decreases rows - d.validity@.len(),
    {
        d.validity.push(true);
    }
}

/// A run of `t` set validity bits: every slot valid.
fn make_trues(t: usize) -> (r: Vec<bool>)
    ensures
        r@.len() == t,
        forall|i: int| 0 <= i < t ==> r@[i] == true,
{
    let mut r: Vec<bool> = Vec::new();
    let mut i: usize = 0;
    while i < t
        invariant
            i <= t,
            r@.len() == i,
            forall|j: int| 0 <= j < i ==> r@[j] == true,
        decreases t - i,
    {
        r.push(true);
        i = i + 1;
    }
    r
}

} // verus!
