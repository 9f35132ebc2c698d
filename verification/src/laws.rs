//! Properties of the decoder stated as theorems, over the same spec
//! functions that the executable functions' contracts use.

use vstd::prelude::*;
use crate::buffer::{narrow_limit, wide_limit, width_limit};
use crate::cursor::{lemma_cursor_split, lemma_vals_len, total_len, CursorModel};
use crate::decode::{count_trues, interleave, lemma_interleave_len};

verus! {

/// Decoding a page's rows in two cursor calls equals one combined call:
/// for any accumulator contents, extending by `k1` rows and then by `k2`
/// rows appends byte-for-byte the same spans, and leaves the cursor in
/// the same state, as a single extend by `k1 + k2`.
pub proof fn lemma_extend_split(base: Seq<Seq<u8>>, c: CursorModel, k1: nat, k2: nat)
    requires
        c.can(k1 + k2),
    ensures
        c.can(k1),
        c.steps(k1).can(k2),
        (base + c.vals(k1)) + c.steps(k1).vals(k2) == base + c.vals(k1 + k2),
        c.steps(k1).steps(k2) == c.steps(k1 + k2),
{
    lemma_cursor_split(c, k1, k2);
    assert((base + c.vals(k1)) + c.steps(k1).vals(k2) =~= base + (c.vals(k1) + c.steps(k1).vals(
        k2,
    )));
}

/// A decode of `k` rows without a null-run descriptor appends exactly `k`
/// value spans to the accumulator; together with the accumulator's
/// well-formedness (offsets never decrease) this pins the shape of a
/// non-nullable page's output.
pub proof fn lemma_extend_row_count(base: Seq<Seq<u8>>, c: CursorModel, k: nat)
    ensures
        (base + c.vals(k)).len() == base.len() + k,
{
    lemma_vals_len(c, k);
}

/// For a page with a null-run descriptor: one span is appended per
/// descriptor bit, the values pulled are exactly as many as the set bits,
/// and every null row maps to a zero-length value span.
pub proof fn lemma_validity_spans(bits: Seq<bool>, vals: Seq<Seq<u8>>)
    requires
        count_trues(bits) == vals.len(),
    ensures
        interleave(bits, vals).len() == bits.len(),
        forall|i: int|
            0 <= i < bits.len() && !bits[i] ==> #[trigger] interleave(bits, vals)[i].len() == 0,
    decreases bits.len(),
{
    lemma_interleave_len(bits, vals);
    if bits.len() > 0 {
        let whole = interleave(bits, vals);
        assert(count_trues(bits) == (if bits[0] {
            1nat
        } else {
            0nat
        }) + count_trues(bits.skip(1)));
        if bits[0] {
            lemma_validity_spans(bits.skip(1), vals.skip(1));
            let tail = interleave(bits.skip(1), vals.skip(1));
            assert(whole == seq![vals[0]] + tail);
            assert forall|i: int| 0 <= i < bits.len() && !bits[i] implies #[trigger] whole[
                i
            ].len() == 0 by {
                assert(i >= 1);
                assert(whole[i] == tail[i - 1]);
                assert(bits.skip(1)[i - 1] == bits[i]);
            }
        } else {
            lemma_validity_spans(bits.skip(1), vals);
            let tail = interleave(bits.skip(1), vals);
            assert(whole == seq![Seq::<u8>::empty()] + tail);
            assert forall|i: int| 0 <= i < bits.len() && !bits[i] implies #[trigger] whole[
                i
            ].len() == 0 by {
                if i == 0 {
                    assert(whole[0] =~= Seq::<u8>::empty());
                } else {
                    assert(whole[i] == tail[i - 1]);
                    assert(bits.skip(1)[i - 1] == bits[i]);
                }
            }
        }
    }
}

/// Interleaving splits along the validity bits: reading `b1` and then
/// `b2` in lockstep with one value stream produces the same spans as one
/// read of `b1 + b2`, with the values divided at `b1`'s set-bit count.
pub proof fn lemma_interleave_concat(b1: Seq<bool>, b2: Seq<bool>, vals: Seq<Seq<u8>>)
    requires
        count_trues(b1 + b2) <= vals.len(),
    ensures
        count_trues(b1) <= vals.len(),
        interleave(b1 + b2, vals) == interleave(b1, vals.take(count_trues(b1) as int))
            + interleave(b2, vals.skip(count_trues(b1) as int)),
    decreases b1.len(),
{
    crate::decode::lemma_count_trues_concat(b1, b2);
    let ct1 = count_trues(b1) as int;
    if b1.len() == 0 {
        assert(b1 + b2 =~= b2);
        assert(ct1 == 0);
        assert(vals.take(0) =~= Seq::<Seq<u8>>::empty());
        assert(interleave(b1, vals.take(0)) == Seq::<Seq<u8>>::empty());
        assert(vals.skip(0) =~= vals);
        assert(Seq::<Seq<u8>>::empty() + interleave(b2, vals) =~= interleave(b2, vals));
    } else {
        let whole = b1 + b2;
        assert(whole[0] == b1[0]);
        assert(whole.skip(1) =~= b1.skip(1) + b2);
        assert(count_trues(b1) == (if b1[0] {
            1nat
        } else {
            0nat
        }) + count_trues(b1.skip(1)));
        if b1[0] {
            assert(ct1 >= 1);
            lemma_interleave_concat(b1.skip(1), b2, vals.skip(1));
            let ct1t = count_trues(b1.skip(1)) as int;
            assert(interleave(whole, vals) == seq![vals[0]] + interleave(
                whole.skip(1),
                vals.skip(1),
            ));
            assert(interleave(whole.skip(1), vals.skip(1)) == interleave(
                b1.skip(1),
                vals.skip(1).take(ct1t),
            ) + interleave(b2, vals.skip(1).skip(ct1t)));
            assert(vals.take(ct1)[0] == vals[0]);
            assert(vals.take(ct1).skip(1) =~= vals.skip(1).take(ct1t));
            assert(vals.skip(ct1) =~= vals.skip(1).skip(ct1t));
            assert(interleave(b1, vals.take(ct1)) == seq![vals[0]] + interleave(
                b1.skip(1),
                vals.skip(1).take(ct1t),
            ));
            assert(seq![vals[0]] + (interleave(b1.skip(1), vals.skip(1).take(ct1t)) + interleave(
                b2,
                vals.skip(ct1),
            )) =~= (seq![vals[0]] + interleave(b1.skip(1), vals.skip(1).take(ct1t))) + interleave(
                b2,
                vals.skip(ct1),
            ));
        } else {
            lemma_interleave_concat(b1.skip(1), b2, vals);
            let e = Seq::<u8>::empty();
            assert(interleave(whole, vals) == seq![e] + interleave(whole.skip(1), vals));
            assert(interleave(whole.skip(1), vals) == interleave(b1.skip(1), vals.take(ct1))
                + interleave(b2, vals.skip(ct1)));
            assert(interleave(b1, vals.take(ct1)) == seq![e] + interleave(
                b1.skip(1),
                vals.take(ct1),
            ));
            assert(seq![e] + (interleave(b1.skip(1), vals.take(ct1)) + interleave(
                b2,
                vals.skip(ct1),
            )) =~= (seq![e] + interleave(b1.skip(1), vals.take(ct1))) + interleave(
                b2,
                vals.skip(ct1),
            ));
        }
    }
}

/// Splitting a nullable page's rows across two lockstep decode calls —
/// `n1` descriptor bits and then `n2` — appends byte-for-byte the same
/// spans to any accumulator, and leaves the cursor in the same state, as
/// a single call over `n1 + n2` bits.
pub proof fn lemma_nullable_extend_split(
    base: Seq<Seq<u8>>,
    c: CursorModel,
    rem: Seq<bool>,
    n1: int,
    n2: int,
)
    requires
        0 <= n1,
        0 <= n2,
        n1 + n2 <= rem.len(),
        c.can(count_trues(rem.take(n1 + n2))),
    ensures
        ({
            let b1 = rem.take(n1);
            let k1 = count_trues(b1);
            let b2 = rem.skip(n1).take(n2);
            let k2 = count_trues(b2);
            let ball = rem.take(n1 + n2);
            let kall = count_trues(ball);
            &&& kall == k1 + k2
            &&& c.can(k1) && c.steps(k1).can(k2)
            &&& (base + interleave(b1, c.vals(k1))) + interleave(b2, c.steps(k1).vals(k2)) == base
                + interleave(ball, c.vals(kall))
            &&& c.steps(k1).steps(k2) == c.steps(kall)
        }),
{
    let b1 = rem.take(n1);
    let k1 = count_trues(b1);
    let b2 = rem.skip(n1).take(n2);
    let k2 = count_trues(b2);
    let ball = rem.take(n1 + n2);
    let kall = count_trues(ball);
    assert(ball =~= b1 + b2);
    crate::decode::lemma_count_trues_concat(b1, b2);
    lemma_cursor_split(c, k1, k2);
    lemma_vals_len(c, kall);
    lemma_vals_len(c, k1);
    lemma_vals_len(c.steps(k1), k2);
    assert(c.vals(kall) == c.vals(k1) + c.steps(k1).vals(k2));
    assert(c.vals(kall).take(k1 as int) =~= c.vals(k1));
    assert(c.vals(kall).skip(k1 as int) =~= c.steps(k1).vals(k2));
    lemma_interleave_concat(b1, b2, c.vals(kall));
    assert(interleave(ball, c.vals(kall)) == interleave(b1, c.vals(k1)) + interleave(
        b2,
        c.steps(k1).vals(k2),
    ));
    assert((base + interleave(b1, c.vals(k1))) + interleave(b2, c.steps(k1).vals(k2)) =~= base + (
    interleave(b1, c.vals(k1)) + interleave(b2, c.steps(k1).vals(k2))));
}

/// Delta-length decoding partitions the byte slab exactly: the `k`
/// pulled values concatenate to precisely the slab's first bytes, and
/// the remaining slab is precisely the rest — no byte is reused or
/// skipped, and the lengths consumed are the first `k` of the stream.
pub proof fn lemma_delta_partition(lengths: Seq<u32>, slab: Seq<u8>, k: nat)
    requires
        (CursorModel::Delta { lengths, slab }).can(k),
    ensures
        ({
            let c = (CursorModel::Delta { lengths, slab });
            let t = total_len(c.vals(k));
            &&& k <= lengths.len()
            &&& 0 <= t <= slab.len()
            &&& c.vals(k).flatten() == slab.take(t)
            &&& c.steps(k) == (CursorModel::Delta {
                lengths: lengths.skip(k as int),
                slab: slab.skip(t),
            })
        }),
    decreases k,
{
    let c = (CursorModel::Delta { lengths, slab });
    if k == 0 {
        assert(c.vals(0) == Seq::<Seq<u8>>::empty());
        assert(total_len(c.vals(0)) == 0);
        assert(c.vals(0).flatten() =~= slab.take(0));
        assert(lengths.skip(0) =~= lengths);
        assert(slab.skip(0) =~= slab);
    } else {
        let l0 = lengths[0] as int;
        let head = slab.take(l0);
        let c1 = c.step1();
        lemma_delta_partition(lengths.skip(1), slab.skip(l0), (k - 1) as nat);
        let rest = c1.vals((k - 1) as nat);
        let t1 = total_len(rest);
        assert(c.vals(k) == seq![head] + rest);
        assert((seq![head] + rest).skip(1) =~= rest);
        assert((seq![head] + rest)[0] == head);
        assert(total_len(c.vals(k)) == l0 + t1);
        assert(c.vals(k).first() == head);
        assert(c.vals(k).drop_first() =~= rest);
        assert(c.vals(k).flatten() == head + rest.flatten());
        assert(rest.flatten() == slab.skip(l0).take(t1));
        assert(head + slab.skip(l0).take(t1) =~= slab.take(l0 + t1));
        assert(lengths.skip(1).skip(k - 1) =~= lengths.skip(k as int));
        assert(slab.skip(l0).skip(t1) =~= slab.skip(l0 + t1));
        assert(c.steps(k) == c1.steps((k - 1) as nat));
    }
}

/// Offset width at the extend step: with wide offsets and no pending
/// UTF-8 validation, appending rows succeeds whenever the resulting byte
/// total fits the 64-bit bound — in particular for totals beyond what
/// the narrow 32-bit offsets can index.
pub proof fn lemma_wide_extend_ok(m0: CursorModel, base: int, additional: nat)
    requires
        m0.can(additional),
        base + total_len(m0.vals(additional)) <= wide_limit(),
    ensures
        crate::decode::extend_ok(m0, base, true, false, Option::<Seq<bool>>::None, additional),
{
}

/// Offset width selection: a value-byte total that exceeds what narrow
/// (32-bit) offsets can index is still accepted by the wide (64-bit)
/// variant, whose pushes succeed exactly when the total is within its
/// own bound.
pub proof fn lemma_offset_width(total: int)
    requires
        narrow_limit() < total <= wide_limit(),
    ensures
        total <= width_limit(true),
        !(total <= width_limit(false)),
{
}

} // verus!
