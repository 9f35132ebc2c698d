//! Pages, the per-column decoder, and the extend step that appends decoded
//! rows to an accumulator in lockstep with the null-run descriptor.

use vstd::prelude::*;
use crate::error::DecodeError;
use crate::buffer::{Binary, Decoded, width_limit};
use crate::cursor::{
    BinaryStateTranslation, CursorModel, DeltaBytesCursor, DeltaCursor, DictionaryCursor,
    PlainCursor, lemma_cursor_split, lemma_total_len_concat, lemma_total_len_nonneg,
    lemma_vals_len, total_len,
};
use crate::dict::BinaryDict;
use crate::array::ArrayKind;
use crate::utf8::{all_utf8, check_utf8_range, is_utf8};

verus! {

/// Number of set bits: the valid (non-null) rows among `bits`.
pub open spec fn count_trues(bits: Seq<bool>) -> nat
    decreases bits.len(),
{
    if bits.len() == 0 {
        0
    } else {
        (if bits[0] {
            1nat
        } else {
            0nat
        }) + count_trues(bits.skip(1))
    }
}

/// The row spans produced by reading validity bits in lockstep with pulled
/// values: a valid slot takes the next value, a null slot takes a
/// zero-length span and consumes no value.
pub open spec fn interleave(bits: Seq<bool>, vals: Seq<Seq<u8>>) -> Seq<Seq<u8>>
    recommends
        count_trues(bits) <= vals.len(),
    decreases bits.len(),
{
    if bits.len() == 0 {
        Seq::empty()
    } else if bits[0] {
        seq![vals[0]] + interleave(bits.skip(1), vals.skip(1))
    } else {
        seq![Seq::<u8>::empty()] + interleave(bits.skip(1), vals)
    }
}

pub proof fn lemma_count_trues_push(bits: Seq<bool>, b: bool)
    ensures
        count_trues(bits.push(b)) == count_trues(bits) + (if b {
            1nat
        } else {
            0nat
        }),
    decreases bits.len(),
{
    let p = bits.push(b);
    if bits.len() == 0 {
        assert(p.len() == 1 && p[0] == b);
        assert(p.skip(1) =~= Seq::<bool>::empty());
        assert(count_trues(p.skip(1)) == 0);
        assert(count_trues(p) == (if b {
            1nat
        } else {
            0nat
        }) + count_trues(p.skip(1)));
    } else {
        assert(p.skip(1) =~= bits.skip(1).push(b));
        assert(p[0] == bits[0]);
        lemma_count_trues_push(bits.skip(1), b);
        assert(count_trues(p) == (if bits[0] {
            1nat
        } else {
            0nat
        }) + count_trues(p.skip(1)));
        assert(count_trues(bits) == (if bits[0] {
            1nat
        } else {
            0nat
        }) + count_trues(bits.skip(1)));
    }
}

pub proof fn lemma_count_trues_concat(a: Seq<bool>, b: Seq<bool>)
    ensures
        count_trues(a + b) == count_trues(a) + count_trues(b),
    decreases a.len(),
{
    if a.len() == 0 {
        assert(a + b =~= b);
    } else {
        assert((a + b).skip(1) =~= a.skip(1) + b);
        assert((a + b)[0] == a[0]);
        lemma_count_trues_concat(a.skip(1), b);
    }
}

pub proof fn lemma_interleave_push_true(bits: Seq<bool>, vals: Seq<Seq<u8>>, v: Seq<u8>)
    requires
        count_trues(bits) == vals.len(),
    ensures
        interleave(bits.push(true), vals.push(v)) == interleave(bits, vals).push(v),
    decreases bits.len(),
{
    if bits.len() == 0 {
        let p = bits.push(true);
        assert(vals.len() == 0);
        assert(p.len() == 1 && p[0] == true);
        assert(p.skip(1) =~= Seq::<bool>::empty());
        assert(vals.push(v)[0] == v);
        assert(interleave(p, vals.push(v)) == seq![vals.push(v)[0]] + interleave(
            p.skip(1),
            vals.push(v).skip(1),
        ));
        assert(interleave(p.skip(1), vals.push(v).skip(1)) == Seq::<Seq<u8>>::empty());
        assert(interleave(p, vals.push(v)) =~= interleave(bits, vals).push(v));
    } else {
        assert(bits.push(true).skip(1) =~= bits.skip(1).push(true));
        assert(bits.push(true)[0] == bits[0]);
        let p = bits.push(true);
        assert(count_trues(bits) == (if bits[0] {
            1nat
        } else {
            0nat
        }) + count_trues(bits.skip(1)));
        if bits[0] {
            assert(vals.len() >= 1);
            assert(vals.push(v).skip(1) =~= vals.skip(1).push(v));
            assert(vals.push(v)[0] == vals[0]);
            lemma_interleave_push_true(bits.skip(1), vals.skip(1), v);
            let tail = interleave(bits.skip(1), vals.skip(1));
            assert(interleave(p, vals.push(v)) == seq![vals[0]] + interleave(
                p.skip(1),
                vals.push(v).skip(1),
            ));
            assert(interleave(p.skip(1), vals.push(v).skip(1)) == tail.push(v));
            assert(interleave(bits, vals) == seq![vals[0]] + tail);
            assert(seq![vals[0]] + tail.push(v) =~= (seq![vals[0]] + tail).push(v));
        } else {
            lemma_interleave_push_true(bits.skip(1), vals, v);
            let e = Seq::<u8>::empty();
            let tail = interleave(bits.skip(1), vals);
            assert(interleave(p, vals.push(v)) == seq![e] + interleave(p.skip(1), vals.push(v)));
            assert(interleave(p.skip(1), vals.push(v)) == tail.push(v));
            assert(interleave(bits, vals) == seq![e] + tail);
            assert(seq![e] + tail.push(v) =~= (seq![e] + tail).push(v));
        }
    }
}

pub proof fn lemma_interleave_push_false(bits: Seq<bool>, vals: Seq<Seq<u8>>)
    requires
        count_trues(bits) <= vals.len(),
    ensures
        interleave(bits.push(false), vals) == interleave(bits, vals).push(Seq::<u8>::empty()),
    decreases bits.len(),
{
    let p = bits.push(false);
    let e = Seq::<u8>::empty();
    if bits.len() == 0 {
        assert(p.len() == 1 && p[0] == false);
        assert(p.skip(1) =~= Seq::<bool>::empty());
        assert(interleave(p, vals) == seq![e] + interleave(p.skip(1), vals));
        assert(interleave(p, vals) =~= interleave(bits, vals).push(e));
    } else {
        assert(p.skip(1) =~= bits.skip(1).push(false));
        assert(p[0] == bits[0]);
        assert(count_trues(bits) == (if bits[0] {
            1nat
        } else {
            0nat
        }) + count_trues(bits.skip(1)));
        if bits[0] {
            lemma_interleave_push_false(bits.skip(1), vals.skip(1));
            let tail = interleave(bits.skip(1), vals.skip(1));
            assert(interleave(p, vals) == seq![vals[0]] + interleave(p.skip(1), vals.skip(1)));
            assert(interleave(p.skip(1), vals.skip(1)) == tail.push(e));
            assert(interleave(bits, vals) == seq![vals[0]] + tail);
            assert(seq![vals[0]] + tail.push(e) =~= (seq![vals[0]] + tail).push(e));
        } else {
            lemma_interleave_push_false(bits.skip(1), vals);
            let tail = interleave(bits.skip(1), vals);
            assert(interleave(p, vals) == seq![e] + interleave(p.skip(1), vals));
            assert(interleave(p.skip(1), vals) == tail.push(e));
            assert(interleave(bits, vals) == seq![e] + tail);
            assert(seq![e] + tail.push(e) =~= (seq![e] + tail).push(e));
        }
    }
}

/// The interleaved spans are all UTF-8 exactly when the pulled values are:
/// null slots contribute empty spans, which are trivially well-formed.
pub proof fn lemma_interleave_utf8(bits: Seq<bool>, vals: Seq<Seq<u8>>)
    requires
        count_trues(bits) == vals.len(),
    ensures
        all_utf8(interleave(bits, vals)) == all_utf8(vals),
    decreases bits.len(),
{
    if bits.len() == 0 {
        assert(vals.len() == 0);
    } else if bits[0] {
        assert(vals.len() >= 1);
        lemma_interleave_utf8(bits.skip(1), vals.skip(1));
        let tail = interleave(bits.skip(1), vals.skip(1));
        let whole = interleave(bits, vals);
        assert(whole == seq![vals[0]] + tail);
        assert(whole[0] == vals[0]);
        assert(forall|i: int| 0 <= i < tail.len() ==> whole[i + 1] == #[trigger] tail[i]);
        assert(forall|i: int| 0 <= i < vals.skip(1).len() ==> vals.skip(1)[i] == #[trigger] vals[
            i + 1
        ]);
        assert(all_utf8(whole) ==> all_utf8(vals)) by {
            if all_utf8(whole) {
                assert(forall|i: int| 0 <= i < tail.len() ==> is_utf8(#[trigger] tail[i])) by {
                    assert(forall|i: int| 0 <= i < tail.len() ==> tail[i] == whole[i + 1]);
                }
                assert(is_utf8(vals[0]));
                assert(forall|i: int| 0 <= i < vals.len() ==> is_utf8(#[trigger] vals[i])) by {
                    assert(forall|i: int| 1 <= i < vals.len() ==> vals[i] == vals.skip(1)[i - 1]);
                }
            }
        }
        assert(all_utf8(vals) ==> all_utf8(whole)) by {
            if all_utf8(vals) {
                assert(forall|i: int| 0 <= i < vals.skip(1).len() ==> is_utf8(
                    #[trigger] vals.skip(1)[i],
                ));
                assert(forall|i: int| 0 <= i < whole.len() ==> is_utf8(#[trigger] whole[i])) by {
                    assert(forall|i: int| 1 <= i < whole.len() ==> whole[i] == tail[i - 1]);
                }
            }
        }
    } else {
        lemma_interleave_utf8(bits.skip(1), vals);
        let tail = interleave(bits.skip(1), vals);
        let whole = interleave(bits, vals);
        assert(whole == seq![Seq::<u8>::empty()] + tail);
        assert(whole[0] =~= Seq::<u8>::empty());
        assert(is_utf8(whole[0]));
        assert(forall|i: int| 0 <= i < tail.len() ==> whole[i + 1] == #[trigger] tail[i]);
        assert(all_utf8(whole) ==> all_utf8(tail)) by {
            if all_utf8(whole) {
                assert(forall|i: int| 0 <= i < tail.len() ==> tail[i] == whole[i + 1]);
            }
        }
        assert(all_utf8(tail) ==> all_utf8(whole)) by {
            if all_utf8(tail) {
                assert(forall|i: int| 1 <= i < whole.len() ==> whole[i] == tail[i - 1]);
            }
        }
    }
}

/// The null-run descriptor of one page, decoded: which of the page's rows
/// are valid, consumable in order.
pub struct PageValidity {
    pub bits: Vec<bool>,
    pub pos: usize,
}

impl PageValidity {
    pub open spec fn wf(self) -> bool {
        self.pos <= self.bits@.len()
    }

    /// The not-yet-consumed validity bits.
    pub open spec fn rem(self) -> Seq<bool> {
        self.bits@.skip(self.pos as int)
    }

    pub fn new(bits: Vec<bool>) -> (r: PageValidity)
        ensures
            r.wf(),
            r.rem() == bits@,
    {
        let r = PageValidity { bits, pos: 0 };
        proof {
            assert(r.bits@.skip(0) =~= r.bits@);
        }
        r
    }
}

/// The encoding-specific payload of a data page, with the integer streams
/// already unpacked from their bit-level layout.
pub enum PageValues {
    /// Raw length-prefixed value bytes.
    Plain { bytes: Vec<u8> },
    /// Indices into the active dictionary.
    Dictionary { indices: Vec<u32> },
    /// Decoded value lengths plus the shared byte slab they partition.
    DeltaLength { lengths: Vec<u32>, bytes: Vec<u8> },
    /// Shared-prefix lengths, suffix lengths, and the suffix byte slab.
    DeltaBytes { prefixes: Vec<u32>, suffixes: Vec<u32>, bytes: Vec<u8> },
}

/// One data page: payload, declared row count, optional null-run
/// descriptor, and whether the column's logical type is string.
pub struct DataPage {
    pub values: PageValues,
    pub num_rows: usize,
    pub validity: Option<Vec<bool>>,
    pub is_string: bool,
}

/// A dictionary page: plain-encoded values defining the value table.
pub struct DictPage {
    pub buffer: Vec<u8>,
    pub num_values: usize,
}

/// A page pulled from the page source.
pub enum Page {
    Dict(DictPage),
    Data(DataPage),
}

/// Per-column decoder configuration: the output kind and the one mutable
/// scratch flag, set when a page declares a string logical type and
/// consumed (cleared) by the next extend.
pub struct BinaryDecoder {
    pub kind: ArrayKind,
    pub check_utf8: bool,
}

impl BinaryDecoder {
    pub fn new(kind: ArrayKind) -> (r: BinaryDecoder)
        ensures
            r.kind == kind,
            r.check_utf8 == false,
    {
        BinaryDecoder { kind, check_utf8: false }
    }

    /// A fresh, empty accumulator pair for one output chunk.
    pub fn with_capacity(&self, capacity: usize) -> (r: Decoded)
        ensures
            r.wf(),
            r.values.wide == self.kind.is_wide(),
            r.values.num_rows() == 0,
            r.values.values@ =~= Seq::<u8>::empty(),
            r.values.spans() =~= Seq::<Seq<u8>>::empty(),
            r.validity@ =~= Seq::<bool>::empty(),
    {
        Decoded { values: Binary::with_capacity(capacity, self.kind.wide()), validity: Vec::new() }
    }

    /// Build the value table from a dictionary page. For a string-typed
    /// column every entry is UTF-8-checked here, once; pages that resolve
    /// indices against the table never recheck them.
    #[verifier::loop_isolation(false)]
    pub fn deserialize_dict(&self, page: DictPage) -> (r: Result<BinaryDict, DecodeError>)
        ensures
            ({
                let m = (CursorModel::Plain { bytes: page.buffer@ });
                let k = page.num_values as nat;
                &&& (r is Ok <==> m.can(k) && (self.kind.is_string() ==> all_utf8(m.vals(k))))
                &&& (r is Ok ==> r->Ok_0.entries() == m.vals(k))
                &&& (r is Err && r->Err_0 == DecodeError::InvalidUtf8 ==> self.kind.is_string())
            }),
    {
        let ghost page0 = page;
        let ghost m = (CursorModel::Plain { bytes: page.buffer@ });
        let n = page.num_values;
        let is_str = self.kind.string();
        let mut cursor = PlainCursor::new(page.buffer, n);
        let mut dict = BinaryDict::new();
        let mut i: usize = 0;
        while i < n
            invariant
                i <= n,
                n == page0.num_values,
                m == (CursorModel::Plain { bytes: page0.buffer@ }),
                cursor.wf(),
                is_str == self.kind.is_string(),
                m.can(i as nat),
                cursor.model() == m.steps(i as nat),
                dict.entries() == m.vals(i as nat),
                is_str ==> all_utf8(m.vals(i as nat)),
            decreases n - i,
        {
            let ghost mi = cursor.model();
            proof {
                lemma_vals_len(m, i as nat);
            }
            match cursor.next_span() {
                Ok((s, e)) => {
                    proof {
                        lemma_cursor_split(m, i as nat, 1nat);
                        assert(mi.can(1) == (mi.can1() && mi.step1().can(0)));
                        assert(m.can(i as nat + 1));
                        assert(m.vals(i as nat + 1) == m.vals(i as nat) + mi.vals(1));
                        assert(mi.vals(1) == seq![mi.val1()] + mi.step1().vals((1 - 1) as nat));
                        assert(mi.step1().vals(0) =~= Seq::<Seq<u8>>::empty());
                        assert(mi.vals(1) =~= seq![mi.val1()]);
                        assert(m.vals(i as nat + 1) =~= m.vals(i as nat).push(mi.val1()));
                        assert(cursor.model() == mi.step1());
                        assert(mi.steps(1) == mi.step1().steps(0));
                        assert(m.steps(i as nat + 1) == mi.steps(1));
                        assert(cursor.model() == m.steps(i as nat + 1));
                    }
                    if is_str && !check_utf8_range(&cursor.bytes, s, e) {
                        proof {
                            let k = n as nat;
                            if m.can(k) {
                                lemma_cursor_split(m, i as nat + 1, (n - i - 1) as nat);
                                assert(m.vals(k) == m.vals(i as nat + 1) + m.steps(
                                    i as nat + 1,
                                ).vals((n - i - 1) as nat));
                                lemma_vals_len(m, i as nat + 1);
                                assert(m.vals(k)[i as int] == m.vals(i as nat + 1)[i as int]);
                                assert(m.vals(k)[i as int] == mi.val1());
                                lemma_vals_len(m, k);
                                assert(!is_utf8(mi.val1()));
                                assert(!all_utf8(m.vals(k)));
                            }
                            assert(!(m.can(k) && (self.kind.is_string() ==> all_utf8(
                                m.vals(k),
                            ))));
                            assert(k == page0.num_values as nat);
                        }
                        return Err(DecodeError::InvalidUtf8);
                    }
                    let v = crate::cursor::copy_range(&cursor.bytes, s, e);
                    dict.push_value(v);
                    proof {
                        if is_str {
                            let prev = m.vals(i as nat);
                            let now = m.vals(i as nat + 1);
                            assert(forall|t: int| 0 <= t < prev.len() ==> now[t] == #[trigger] prev[
                                t
                            ]);
                            lemma_vals_len(m, i as nat);
                            assert(now[i as int] == mi.val1());
                            assert(is_utf8(mi.val1()));
                            assert(all_utf8(now));
                        }
                    }
                },
                Err(e) => {
                    proof {
                        lemma_cursor_split(m, i as nat, (n - i) as nat);
                        assert((n - i) as nat >= 1);
                        assert(!mi.can1());
                        assert(!m.steps(i as nat).can((n - i) as nat));
                        assert(i as nat + (n - i) as nat == n as nat);
                        assert(!m.can(n as nat));
                        assert(n as nat == page0.num_values as nat);
                        assert(!(m.can(page0.num_values as nat) && (self.kind.is_string()
                            ==> all_utf8(m.vals(page0.num_values as nat)))));
                        assert(mi is Plain);
                        assert(e != DecodeError::InvalidUtf8);
                    }
                    return Err(e);
                },
            }
            i = i + 1;
        }
        Ok(dict)
    }
}

/// When an extend of `additional` logical rows succeeds: the value streams
/// hold enough well-formed data, the new bytes fit the offset width, the
/// null-run descriptor (when present) holds enough bits, and, when
/// validation applies, every pulled value is well-formed UTF-8.
pub open spec fn extend_ok(
    m0: CursorModel,
    base_bytes: int,
    wide: bool,
    validate: bool,
    rem: Option<Seq<bool>>,
    additional: nat,
) -> bool {
    match rem {
        Option::None => m0.can(additional) && base_bytes + total_len(m0.vals(additional))
            <= width_limit(wide) && (validate ==> all_utf8(m0.vals(additional))),
        Option::Some(bits_rem) => {
            let bits = bits_rem.take(additional as int);
            let k = count_trues(bits);
            &&& bits_rem.len() >= additional
            &&& m0.can(k)
            &&& base_bytes + total_len(m0.vals(k)) <= width_limit(wide)
            &&& (validate ==> all_utf8(m0.vals(k)))
        },
    }
}

/// Interleaving produces one span per validity bit.
pub proof fn lemma_interleave_len(bits: Seq<bool>, vals: Seq<Seq<u8>>)
    requires
        count_trues(bits) <= vals.len(),
    ensures
        interleave(bits, vals).len() == bits.len(),
    decreases bits.len(),
{
    if bits.len() > 0 {
        assert(count_trues(bits) == (if bits[0] {
            1nat
        } else {
            0nat
        }) + count_trues(bits.skip(1)));
        if bits[0] {
            lemma_interleave_len(bits.skip(1), vals.skip(1));
        } else {
            lemma_interleave_len(bits.skip(1), vals);
        }
    }
}

impl BinaryStateTranslation {
    /// Build the decode-cursor for one data page: pick the variant from
    /// the page's encoding, record the page's string-typedness on the
    /// decoder for deferred UTF-8 validation, and hand back the null-run
    /// descriptor as a consumable cursor.
    ///
    /// Fails exactly when the page is dictionary-encoded and no
    /// dictionary page has been seen.
    pub fn new(decoder: &mut BinaryDecoder, page: DataPage, dict: &Option<BinaryDict>) -> (r:
        Result<(BinaryStateTranslation, Option<PageValidity>), DecodeError>)
        ensures
            final(decoder).kind == old(decoder).kind,
            final(decoder).check_utf8 == page.is_string,
            r is Err <==> page.values is Dictionary && dict is None,
            r is Err ==> r->Err_0 == DecodeError::MissingDictionary,
            r is Ok ==> ({
                let c = r->Ok_0.0;
                let pv = r->Ok_0.1;
                &&& c.wf()
                &&& match page.values {
                    PageValues::Plain { bytes } => c.model() == (CursorModel::Plain {
                        bytes: bytes@,
                    }) && c.hint() == page.num_rows,
                    PageValues::Dictionary { indices } => dict is Some && c.model() == (
                    CursorModel::Dictionary {
                        dict: dict->0.entries(),
                        indices: indices@,
                    }),
                    PageValues::DeltaLength { lengths, bytes } => c.model() == (
                    CursorModel::Delta { lengths: lengths@, slab: bytes@ }),
                    PageValues::DeltaBytes { prefixes, suffixes, bytes } => c.model() == (
                    CursorModel::DeltaBytes {
                        prefixes: prefixes@,
                        suffixes: suffixes@,
                        slab: bytes@,
                        prev: Seq::<u8>::empty(),
                    }),
                }
                &&& (pv is Some <==> page.validity is Some)
                &&& (pv is Some ==> pv->0.wf() && pv->0.rem() == page.validity->0@)
            }),
    {
        decoder.check_utf8 = page.is_string;
        let DataPage { values, num_rows, validity, is_string: _ } = page;
        let page_validity = match validity {
            Option::Some(bits) => Option::Some(PageValidity::new(bits)),
            Option::None => Option::None,
        };
        let cursor = match values {
            PageValues::Plain { bytes } => BinaryStateTranslation::Plain(
                PlainCursor::new(bytes, num_rows),
            ),
            PageValues::Dictionary { indices } => {
                match dict {
                    Option::Some(d) => BinaryStateTranslation::Dictionary(
                        DictionaryCursor::new(d.duplicate(), indices),
                    ),
                    Option::None => {
                        return Err(DecodeError::MissingDictionary);
                    },
                }
            },
            PageValues::DeltaLength { lengths, bytes } => BinaryStateTranslation::Delta(
                DeltaCursor::new(lengths, bytes),
            ),
            PageValues::DeltaBytes { prefixes, suffixes, bytes } => BinaryStateTranslation::DeltaBytes(
                DeltaBytesCursor::new(prefixes, suffixes, bytes),
            ),
        };
        Ok((cursor, page_validity))
    }
}

impl BinaryStateTranslation {
    /// Append exactly `additional` logical rows (valid and null) to the
    /// accumulator pair and advance this cursor accordingly.
    ///
    /// Without a null-run descriptor every pulled value is valid. With
    /// one, the valid/null status of each slot is read in lockstep with
    /// pulling values only for the valid slots; null slots append a
    /// zero-length span by offset repetition and no validity work is done
    /// beyond the bit itself. Afterwards, if the decoder's deferred
    /// UTF-8 flag was set and the values did not come through a
    /// dictionary or the delta-byte-array reconstruction, exactly the
    /// newly appended byte range is validated; a violation is a decode
    /// error, never a null.
    #[verifier::loop_isolation(false)]
    #[verifier::rlimit(100)]
    #[verifier::spinoff_prover]
    pub fn extend_from_state(
        &mut self,
        decoder: &mut BinaryDecoder,
        decoded: &mut Decoded,
        page_validity: &mut Option<PageValidity>,
        additional: usize,
    ) -> (r: Result<(), DecodeError>)
        requires
            old(self).wf(),
            old(decoded).wf(),
            (*old(page_validity)) is Some ==> old(page_validity)->0.wf() && old(
                decoded,
            ).validity@.len() == old(decoded).values.num_rows(),
            (*old(page_validity)) is None ==> old(decoded).validity@.len() == 0,
        ensures
            final(self).wf(),
            final(decoded).wf(),
            final(decoded).values.wide == old(decoded).values.wide,
            final(decoder).kind == old(decoder).kind,
            final(decoder).check_utf8 == false,
            final(self).skips_validation() == old(self).skips_validation(),
            ({
                let m0 = old(self).model();
                let validate = old(decoder).check_utf8 && !old(self).skips_validation();
                let base = old(decoded).values.values@.len() as int;
                let wide = old(decoded).values.wide;
                match *old(page_validity) {
                    Option::None => {
                        let k = additional as nat;
                        &&& (r is Ok <==> extend_ok(m0, base, wide, validate, Option::None, k))
                        &&& (r is Ok ==> {
                            &&& final(self).model() == m0.steps(k)
                            &&& final(self).hint() == (if old(self).hint() >= additional as int {
                                old(self).hint() - additional
                            } else {
                                0
                            })
                            &&& final(decoded).values.spans() == old(decoded).values.spans()
                                + m0.vals(k)
                            &&& final(decoded).validity@ == old(decoded).validity@
                            &&& (*final(page_validity)) is None
                        })
                    },
                    Option::Some(pv0) => {
                        let bits = pv0.rem().take(additional as int);
                        let k = count_trues(bits);
                        &&& (r is Ok <==> extend_ok(
                            m0,
                            base,
                            wide,
                            validate,
                            Option::Some(pv0.rem()),
                            additional as nat,
                        ))
                        &&& (r is Ok ==> {
                            &&& final(self).model() == m0.steps(k)
                            &&& final(decoded).values.spans() == old(decoded).values.spans()
                                + interleave(bits, m0.vals(k))
                            &&& final(decoded).validity@ == old(decoded).validity@ + bits
                            &&& (*final(page_validity)) is Some
                            &&& final(page_validity)->0.wf()
                            &&& final(page_validity)->0.rem() == pv0.rem().skip(additional as int)
                        })
                    },
                }
            }),
            r == Err::<(), DecodeError>(DecodeError::InvalidUtf8) ==> old(decoder).check_utf8
                && !old(self).skips_validation(),
            ({
                let m0 = old(self).model();
                let validate = old(decoder).check_utf8 && !old(self).skips_validation();
                let base = old(decoded).values.values@.len() as int;
                let wide = old(decoded).values.wide;
                match *old(page_validity) {
                    Option::None => extend_ok(m0, base, wide, false, Option::None, additional as nat)
                        && validate && !all_utf8(m0.vals(additional as nat)) ==> r == Err::<
                        (),
                        DecodeError,
                    >(DecodeError::InvalidUtf8),
                    Option::Some(pv0) => extend_ok(
                        m0,
                        base,
                        wide,
                        false,
                        Option::Some(pv0.rem()),
                        additional as nat,
                    ) && validate && !all_utf8(
                        m0.vals(count_trues(pv0.rem().take(additional as int))),
                    ) ==> r == Err::<(), DecodeError>(DecodeError::InvalidUtf8),
                }
            }),
    {
        let ghost m0 = self.model();
        let validate_flag = decoder.check_utf8;
        decoder.check_utf8 = false;
        let skips = match self {
            BinaryStateTranslation::Dictionary(_) => true,
            BinaryStateTranslation::DeltaBytes(_) => true,
            BinaryStateTranslation::Plain(_) => false,
            BinaryStateTranslation::Delta(_) => false,
        };
        proof {
            assert(skips == self.skips_validation());
        }
        let validate = validate_flag && !skips;
        let rows_before = decoded.values.offsets.len() - 1;
        let ghost base_spans = decoded.values.spans();
        let ghost base_bytes = decoded.values.values@.len() as int;
        let ghost base_validity = decoded.validity@;
        let ghost wide0 = decoded.values.wide;
        match page_validity {
            Option::None => {
                let ghost h0 = old(self).hint();
                let mut i: usize = 0;
                while i < additional
                    invariant
                        i <= additional,
                        self.wf(),
                        decoded.wf(),
                        decoded.values.wide == wide0,
                        self.skips_validation() == old(self).skips_validation(),
                        self.hint() == (if h0 >= i as int {
                            h0 - i
                        } else {
                            0
                        }),
                        m0.can(i as nat),
                        self.model() == m0.steps(i as nat),
                        decoded.values.spans() == base_spans + m0.vals(i as nat),
                        decoded.values.values@.len() == base_bytes + total_len(m0.vals(i as nat)),
                        decoded.validity@ == base_validity,
                    decreases additional - i,
                {
                    let ghost mi = self.model();
                    proof {
                        lemma_vals_len(m0, i as nat);
                    }
                    match self.pull_one() {
                        Ok(v) => {
                            proof {
                                lemma_cursor_split(m0, i as nat, 1nat);
                                assert(mi.step1().can(0));
                                assert(mi.can(1));
                                assert(m0.can(i as nat + 1));
                                assert(m0.vals(i as nat + 1) == m0.vals(i as nat) + mi.vals(1));
                                assert(mi.vals(1) == seq![mi.val1()] + mi.step1().vals(
                                    (1 - 1) as nat,
                                ));
                                assert(mi.step1().vals(0) =~= Seq::<Seq<u8>>::empty());
                                assert(mi.vals(1) =~= seq![mi.val1()]);
                                assert(m0.vals(i as nat + 1) =~= m0.vals(i as nat).push(v@));
                                lemma_total_len_concat(m0.vals(i as nat), mi.vals(1));
                                assert(mi.vals(1).skip(1) =~= Seq::<Seq<u8>>::empty());
                                assert(total_len(Seq::<Seq<u8>>::empty()) == 0);
                                assert(total_len(mi.vals(1)) == mi.vals(1)[0].len()
                                    + total_len(mi.vals(1).skip(1)));
                                assert(mi.vals(1)[0] == mi.val1());
                                assert(total_len(mi.vals(1)) == v@.len());
                                assert(mi.steps(1) == mi.step1().steps(0));
                                assert(m0.steps(i as nat + 1) == mi.steps(1));
                                assert(self.model() == m0.steps(i as nat + 1));
                            }
                            match decoded.values.push_range(&v, 0, v.len()) {
                                Ok(()) => {
                                    proof {
                                        assert(v@.subrange(0, v@.len() as int) =~= v@);
                                        assert(decoded.values.spans() =~= base_spans + m0.vals(
                                            i as nat + 1,
                                        ));
                                    }
                                },
                                Err(e) => {
                                    proof {
                                        if m0.can(additional as nat) {
                                            lemma_cursor_split(
                                                m0,
                                                (i + 1) as nat,
                                                (additional - i - 1) as nat,
                                            );
                                            lemma_total_len_concat(
                                                m0.vals((i + 1) as nat),
                                                m0.steps((i + 1) as nat).vals(
                                                    (additional - i - 1) as nat,
                                                ),
                                            );
                                            lemma_total_len_nonneg(
                                                m0.steps((i + 1) as nat).vals(
                                                    (additional - i - 1) as nat,
                                                ),
                                            );
                                        }
                                        assert(!extend_ok(
                                            m0,
                                            base_bytes,
                                            wide0,
                                            validate,
                                            Option::None,
                                            additional as nat,
                                        ));
                                        assert(!extend_ok(
                                            m0,
                                            base_bytes,
                                            wide0,
                                            false,
                                            Option::None,
                                            additional as nat,
                                        ));
                                    }
                                    return Err(e);
                                },
                            }
                        },
                        Err(e) => {
                            proof {
                                lemma_cursor_split(m0, i as nat, (additional - i) as nat);
                                assert(!m0.can(additional as nat));
                                assert(e == mi.fail1());
                                assert(mi.fail1() != DecodeError::InvalidUtf8) by {
                                    match mi {
                                        CursorModel::Plain { .. } => {},
                                        CursorModel::Dictionary { .. } => {},
                                        CursorModel::Delta { .. } => {},
                                        CursorModel::DeltaBytes { .. } => {},
                                    }
                                }
                            }
                            return Err(e);
                        },
                    }
                    i = i + 1;
                }
                if validate {
                    match validate_new_rows(&decoded.values, rows_before) {
                        Ok(()) => {
                            proof {
                                let k = additional as nat;
                                lemma_vals_len(m0, k);
                                assert forall|t: int| 0 <= t < m0.vals(k).len() implies is_utf8(
                                    #[trigger] m0.vals(k)[t],
                                ) by {
                                    assert(decoded.values.spans()[rows_before + t] == m0.vals(
                                        k,
                                    )[t]);
                                }
                                assert(all_utf8(m0.vals(k)));
                            }
                        },
                        Err(e) => {
                            proof {
                                let k = additional as nat;
                                lemma_vals_len(m0, k);
                                if all_utf8(m0.vals(k)) {
                                    assert forall|t: int|
                                        rows_before <= t < decoded.values.num_rows() implies
                                        is_utf8(#[trigger] decoded.values.spans()[t]) by {
                                        assert(decoded.values.spans()[t] == m0.vals(k)[t
                                            - rows_before]);
                                    }
                                    assert(false);
                                }
                            }
                            return Err(e);
                        },
                    }
                }
                proof {
                    assert(decoded.values.values@.len() <= width_limit(wide0));
                    assert(extend_ok(
                        m0,
                        base_bytes,
                        wide0,
                        validate,
                        Option::None,
                        additional as nat,
                    ));
                }
                Ok(())
            },
            Option::Some(pv) => {
                let ghost rem0 = pv.rem();
                let mut j: usize = 0;
                while j < additional
                    invariant
                        j <= additional,
                        pv.wf(),
                        self.wf(),
                        decoded.wf(),
                        decoded.values.wide == wide0,
                        self.skips_validation() == old(self).skips_validation(),
                        j <= rem0.len(),
                        pv.rem() == rem0.skip(j as int),
                        m0.can(count_trues(rem0.take(j as int))),
                        self.model() == m0.steps(count_trues(rem0.take(j as int))),
                        decoded.values.spans() == base_spans + interleave(
                            rem0.take(j as int),
                            m0.vals(count_trues(rem0.take(j as int))),
                        ),
                        decoded.values.values@.len() == base_bytes + total_len(
                            m0.vals(count_trues(rem0.take(j as int))),
                        ),
                        decoded.validity@ == base_validity + rem0.take(j as int),
                        count_trues(rem0.take(j as int)) <= j,
                    decreases additional - j,
                {
                    let ghost bitsj = rem0.take(j as int);
                    let ghost kj = count_trues(bitsj);
                    proof {
                        lemma_vals_len(m0, kj);
                        lemma_interleave_len(bitsj, m0.vals(kj));
                    }
                    if pv.pos >= pv.bits.len() {
                        proof {
                            assert(pv.rem().len() == 0);
                            assert(rem0.len() == j);
                        }
                        return Err(DecodeError::ExhaustedValidity);
                    }
                    let b = pv.bits[pv.pos];
                    proof {
                        assert(pv.rem().len() > 0);
                        assert(pv.rem()[0] == b);
                        assert(b == rem0[j as int]);
                    }
                    pv.pos = pv.pos + 1;
                    proof {
                        assert(pv.bits@.skip(pv.pos as int) =~= rem0.skip(j as int).skip(1));
                        assert(rem0.skip(j as int).skip(1) =~= rem0.skip(j as int + 1));
                        assert(rem0.take(j as int + 1) =~= bitsj.push(b));
                        lemma_count_trues_push(bitsj, b);
                    }
                    if b {
                        let ghost mi = self.model();
                        proof {
                            if rem0.len() >= additional {
                                let bits_full = rem0.take(additional as int);
                                assert(bits_full =~= bitsj + rem0.subrange(
                                    j as int,
                                    additional as int,
                                ));
                                lemma_count_trues_concat(
                                    bitsj,
                                    rem0.subrange(j as int, additional as int),
                                );
                                let mid = rem0.subrange(j as int, additional as int);
                                assert(mid[0] == b);
                                assert(count_trues(mid) == 1nat + count_trues(mid.skip(1)));
                                assert(count_trues(bits_full) >= kj + 1);
                            }
                        }
                        match self.pull_one() {
                            Ok(v) => {
                                proof {
                                    lemma_cursor_split(m0, kj, 1nat);
                                    assert(mi.step1().can(0));
                                    assert(mi.can(1));
                                    assert(m0.can(kj + 1));
                                    assert(m0.vals(kj + 1) == m0.vals(kj) + mi.vals(1));
                                    assert(mi.vals(1) == seq![mi.val1()] + mi.step1().vals(
                                        (1 - 1) as nat,
                                    ));
                                    assert(mi.step1().vals(0) =~= Seq::<Seq<u8>>::empty());
                                    assert(mi.vals(1) =~= seq![mi.val1()]);
                                    assert(m0.vals(kj + 1) =~= m0.vals(kj).push(v@));
                                    lemma_total_len_concat(m0.vals(kj), mi.vals(1));
                                    assert(mi.vals(1).skip(1) =~= Seq::<Seq<u8>>::empty());
                                    assert(total_len(Seq::<Seq<u8>>::empty()) == 0);
                                    assert(total_len(mi.vals(1)) == mi.vals(1)[0].len()
                                        + total_len(mi.vals(1).skip(1)));
                                    assert(mi.vals(1)[0] == mi.val1());
                                    assert(total_len(mi.vals(1)) == v@.len());
                                    assert(mi.steps(1) == mi.step1().steps(0));
                                    assert(m0.steps(kj + 1) == mi.steps(1));
                                    assert(self.model() == m0.steps(kj + 1));
                                }
                                match decoded.values.push_range(&v, 0, v.len()) {
                                    Ok(()) => {
                                        decoded.validity.push(true);
                                        proof {
                                            assert(v@.subrange(0, v@.len() as int) =~= v@);
                                            lemma_interleave_push_true(bitsj, m0.vals(kj), v@);
                                            assert(count_trues(rem0.take(j as int + 1)) == kj + 1);
                                            assert(rem0.take(j as int + 1) =~= bitsj.push(true));
                                            assert(decoded.values.spans() =~= base_spans
                                                + interleave(
                                                rem0.take(j as int + 1),
                                                m0.vals(kj + 1),
                                            ));
                                            assert(decoded.validity@ =~= base_validity + rem0.take(
                                                j as int + 1,
                                            ));
                                        }
                                    },
                                    Err(e) => {
                                        proof {
                                            if rem0.len() >= additional {
                                                let k_full = count_trues(
                                                    rem0.take(additional as int),
                                                );
                                                if m0.can(k_full) {
                                                    lemma_cursor_split(
                                                        m0,
                                                        kj + 1,
                                                        (k_full - kj - 1) as nat,
                                                    );
                                                    lemma_total_len_concat(
                                                        m0.vals(kj + 1),
                                                        m0.steps(kj + 1).vals(
                                                            (k_full - kj - 1) as nat,
                                                        ),
                                                    );
                                                    lemma_total_len_nonneg(
                                                        m0.steps(kj + 1).vals(
                                                            (k_full - kj - 1) as nat,
                                                        ),
                                                    );
                                                }
                                            }
                                            assert(!extend_ok(
                                                m0,
                                                base_bytes,
                                                wide0,
                                                validate,
                                                Option::Some(rem0),
                                                additional as nat,
                                            ));
                                            assert(!extend_ok(
                                                m0,
                                                base_bytes,
                                                wide0,
                                                false,
                                                Option::Some(rem0),
                                                additional as nat,
                                            ));
                                        }
                                        return Err(e);
                                    },
                                }
                            },
                            Err(e) => {
                                proof {
                                    if rem0.len() >= additional {
                                        let k_full = count_trues(rem0.take(additional as int));
                                        lemma_cursor_split(m0, kj, (k_full - kj) as nat);
                                        assert(!mi.can1());
                                        assert(!m0.can(k_full));
                                    }
                                    assert(e == mi.fail1());
                                    assert(mi.fail1() != DecodeError::InvalidUtf8) by {
                                        match mi {
                                            CursorModel::Plain { .. } => {},
                                            CursorModel::Dictionary { .. } => {},
                                            CursorModel::Delta { .. } => {},
                                            CursorModel::DeltaBytes { .. } => {},
                                        }
                                    }
                                }
                                return Err(e);
                            },
                        }
                    } else {
                        decoded.values.push_null();
                        decoded.validity.push(false);
                        proof {
                            lemma_interleave_push_false(bitsj, m0.vals(kj));
                            assert(count_trues(rem0.take(j as int + 1)) == kj);
                            assert(rem0.take(j as int + 1) =~= bitsj.push(false));
                            assert(decoded.values.spans() =~= base_spans + interleave(
                                rem0.take(j as int + 1),
                                m0.vals(kj),
                            ));
                            assert(decoded.validity@ =~= base_validity + rem0.take(j as int + 1));
                        }
                    }
                    j = j + 1;
                }
                let ghost bits = rem0.take(additional as int);
                let ghost k = count_trues(bits);
                proof {
                    lemma_vals_len(m0, k);
                    lemma_interleave_len(bits, m0.vals(k));
                }
                if validate {
                    match validate_new_rows(&decoded.values, rows_before) {
                        Ok(()) => {
                            proof {
                                let appended = interleave(bits, m0.vals(k));
                                assert forall|t: int| 0 <= t < appended.len() implies is_utf8(
                                    #[trigger] appended[t],
                                ) by {
                                    assert(decoded.values.spans()[rows_before + t] == appended[t]);
                                }
                                assert(all_utf8(appended));
                                lemma_interleave_utf8(bits, m0.vals(k));
                                assert(all_utf8(m0.vals(k)));
                            }
                        },
                        Err(e) => {
                            proof {
                                let appended = interleave(bits, m0.vals(k));
                                if all_utf8(m0.vals(k)) {
                                    lemma_interleave_utf8(bits, m0.vals(k));
                                    assert forall|t: int|
                                        rows_before <= t < decoded.values.num_rows() implies
                                        is_utf8(#[trigger] decoded.values.spans()[t]) by {
                                        assert(decoded.values.spans()[t] == appended[t
                                            - rows_before]);
                                    }
                                    assert(false);
                                }
                            }
                            return Err(e);
                        },
                    }
                }
                proof {
                    assert(decoded.values.values@.len() <= width_limit(wide0));
                    assert(extend_ok(
                        m0,
                        base_bytes,
                        wide0,
                        validate,
                        Option::Some(rem0),
                        additional as nat,
                    ));
                }
                Ok(())
            },
        }
    }
}

/// Whether `values[rows_before..]` of the accumulator all hold
/// well-formed UTF-8, checking only the newly appended rows.
fn validate_new_rows(values: &Binary, rows_before: usize) -> (r: Result<(), DecodeError>)
    requires
        values.wf(),
        rows_before <= values.num_rows(),
    ensures
        r is Ok <==> (forall|t: int|
            rows_before <= t < values.num_rows() ==> is_utf8(#[trigger] values.spans()[t])),
        r is Err ==> r->Err_0 == DecodeError::InvalidUtf8,
{
    let total = values.offsets.len() - 1;
    let mut rx = rows_before;
    while rx < total
        invariant
            rows_before <= rx <= total,
            values.wf(),
            total == values.num_rows(),
            forall|t: int| rows_before <= t < rx ==> is_utf8(#[trigger] values.spans()[t]),
        decreases total - rx,
    {
        let s = values.offsets[rx];
        let e = values.offsets[rx + 1];
        if !check_utf8_range(&values.values, s, e) {
            proof {
                assert(values.spans()[rx as int] == values.values@.subrange(s as int, e as int));
            }
            return Err(DecodeError::InvalidUtf8);
        }
        proof {
            assert(values.spans()[rx as int] == values.values@.subrange(s as int, e as int));
        }
        rx = rx + 1;
    }
    Ok(())
}

} // verus!
