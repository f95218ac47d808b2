//! Why the words of the encoder expand to the pixels they were made from:
//! one lemma for each group of words, and the induction over a row.

use vstd::prelude::*;
use crate::layout::{
    data, lemma_word_parts, opcode, DATA_MAX, HIGH_MAX, OP_DEC_HIGH, OP_DEC_STORE, OP_HIGH_RUN,
    OP_INC_HIGH, OP_INC_STORE, OP_SET_HIGH, OP_ZERO_RUN, OP_ZERO_RUN_HIGH, ZERO_RUN_MAX,
};
use crate::runs::{
    change_words, encode_from, fits_from, high_words, is_jump, leading_zeros,
    lemma_run_len_holds, run_len, segment_words, zero_words,
};
use crate::stream::{expand, repeat, well_formed};

verus! {

/// Whether every pixel of `p` is a nonnegative 32-bit signed value.
pub open spec fn is_row(p: Seq<int>) -> bool {
    forall|k: int| 0 <= k < p.len() ==> 0 <= #[trigger] p[k] <= i32::MAX
}

/// The pixel that a single fused word puts out: `hi` behind a zero run
/// with `then_high`, else none.
pub open spec fn one_if(then_high: bool, hi: int) -> Seq<int> {
    if then_high {
        seq![hi]
    } else {
        Seq::empty()
    }
}

/// The words for a run of `n` zeros expand to `n` zeros, with one pixel at
/// the high value behind them where `then_high` is set, and are valid.
pub proof fn lemma_zero_words(n: int, then_high: bool, rest: Seq<i16>, hi: int)
    requires
        1 <= n,
        i32::MIN <= hi <= i32::MAX,
    ensures
        expand(zero_words(n, then_high) + rest, hi) == repeat(0, n) + one_if(then_high, hi)
            + expand(rest, hi),
        well_formed(zero_words(n, then_high) + rest, hi) == well_formed(rest, hi),
    decreases n,
{
    let s: Seq<i16> = zero_words(n, then_high) + rest;
    if n <= ZERO_RUN_MAX {
        lemma_word_parts(OP_ZERO_RUN as int, n);
        lemma_word_parts(OP_ZERO_RUN_HIGH as int, n + 1);
        assert(s.skip(1) =~= rest);
    } else {
        lemma_word_parts(OP_ZERO_RUN as int, ZERO_RUN_MAX as int);
        let more: Seq<i16> = zero_words(n - ZERO_RUN_MAX, then_high);
        assert(s.skip(1) =~= more + rest);
        lemma_zero_words(n - ZERO_RUN_MAX, then_high, rest, hi);
    }
}

/// The words for a run of `n` pixels at the high value expand to `n`
/// pixels of that value, and are valid.
pub proof fn lemma_high_words(n: int, rest: Seq<i16>, hi: int)
    requires
        1 <= n,
        i32::MIN <= hi <= i32::MAX,
    ensures
        expand(high_words(n) + rest, hi) == repeat(hi, n) + expand(rest, hi),
        well_formed(high_words(n) + rest, hi) == well_formed(rest, hi),
    decreases n,
{
    let s: Seq<i16> = high_words(n) + rest;
    if n <= DATA_MAX {
        lemma_word_parts(OP_HIGH_RUN as int, n);
        assert(s.skip(1) =~= rest);
    } else {
        lemma_word_parts(OP_HIGH_RUN as int, DATA_MAX as int);
        let more: Seq<i16> = high_words(n - DATA_MAX);
        assert(s.skip(1) =~= more + rest);
        lemma_high_words(n - DATA_MAX, rest, hi);
    }
}

/// Whether a change of the high value from `hi` to `pv` with `store` puts
/// out a pixel: where it is one increment or decrement word.
pub open spec fn stores(hi: int, pv: int, store: bool) -> bool {
    store && pv != hi && !is_jump(pv - hi)
}

/// The words that change the high value from `hi` to `pv` leave it at `pv`,
/// put out one pixel of that value where they store, and are valid, as long
/// as a set-high can carry `pv`.
pub proof fn lemma_change_words(hi: int, pv: int, store: bool, rest: Seq<i16>)
    requires
        0 < hi <= i32::MAX,
        0 < pv <= i32::MAX,
        is_jump(pv - hi) ==> pv <= HIGH_MAX,
    ensures
        expand(change_words(hi, pv, store) + rest, hi) == one_if(stores(hi, pv, store), pv)
            + expand(rest, pv),
        well_formed(change_words(hi, pv, store) + rest, hi) == well_formed(rest, pv),
{
    let ws: Seq<i16> = change_words(hi, pv, store);
    let s: Seq<i16> = ws + rest;
    let dv: int = pv - hi;
    if is_jump(dv) {
        lemma_word_parts(OP_SET_HIGH as int, pv % 4096);
        assert(s.skip(2) =~= rest);
    } else if dv > 0 {
        lemma_word_parts(OP_INC_STORE as int, dv);
        lemma_word_parts(OP_INC_HIGH as int, dv);
        assert(s.skip(1) =~= rest);
    } else if dv < 0 {
        lemma_word_parts(OP_DEC_STORE as int, -dv);
        lemma_word_parts(OP_DEC_HIGH as int, -dv);
        assert(s.skip(1) =~= rest);
    }
}

/// The words of a segment expand to its pixels, `nz` zeros and `np` pixels
/// of value `pv`, leave the high value at `pv`, and are valid, as long as a
/// set-high can carry `pv`.
pub proof fn lemma_segment_words(hi: int, nz: int, pv: int, np: int, rest: Seq<i16>)
    requires
        0 < hi <= i32::MAX,
        0 < pv <= i32::MAX,
        0 <= nz,
        1 <= np,
        is_jump(pv - hi) ==> pv <= HIGH_MAX,
    ensures
        expand(segment_words(hi, nz, pv, np) + rest, hi) == repeat(0, nz) + repeat(pv, np)
            + expand(rest, pv),
        well_formed(segment_words(hi, nz, pv, np) + rest, hi) == well_formed(rest, pv),
{
    let dv: int = pv - hi;
    if np == 1 && nz == 0 && dv != 0 && !is_jump(dv) {
        lemma_change_words(hi, pv, true, rest);
    } else if np == 1 && nz > 0 {
        let zs: Seq<i16> = zero_words(nz, true);
        assert(segment_words(hi, nz, pv, np) + rest =~= change_words(hi, pv, false) + (zs
            + rest));
        lemma_change_words(hi, pv, false, zs + rest);
        lemma_zero_words(nz, true, rest, pv);
    } else {
        let zs: Seq<i16> = zero_words(nz, false);
        let hs: Seq<i16> = high_words(np);
        assert(segment_words(hi, nz, pv, np) + rest =~= change_words(hi, pv, false) + (zs + (hs
            + rest)));
        lemma_change_words(hi, pv, false, zs + (hs + rest));
        if nz > 0 {
            lemma_zero_words(nz, false, hs + rest, pv);
        }
        lemma_high_words(np, rest, pv);
    }
}

/// The words for the pixels of a row from index `i` on expand to those
/// pixels and are valid, as long as every set-high they need can carry its
/// value.
pub proof fn lemma_encode_from_expands(p: Seq<int>, i: int, hi: int)
    requires
        is_row(p),
        0 <= i <= p.len(),
        0 < hi <= i32::MAX,
        fits_from(p, i, hi),
    ensures
        expand(encode_from(p, i, hi), hi) == p.skip(i),
        well_formed(encode_from(p, i, hi), hi),
    decreases p.len() - i,
{
    if i < p.len() {
        let nz: int = leading_zeros(p, i);
        let j: int = i + nz;
        lemma_run_len_holds(p, i);
        if j >= p.len() {
            lemma_zero_words(nz, false, Seq::empty(), hi);
        } else {
            lemma_run_len_holds(p, j);
            let np: int = run_len(p, j) as int;
            let pv: int = p[j];
            lemma_encode_from_expands(p, j + np, pv);
            lemma_segment_words(hi, nz, pv, np, encode_from(p, j + np, pv));
        }
    }
}

/// A row whose pixels are all at most `HIGH_MAX` can be encoded.
pub proof fn lemma_small_row_fits(p: Seq<int>, i: int, hi: int)
    requires
        forall|k: int| 0 <= k < p.len() ==> #[trigger] p[k] <= HIGH_MAX,
        0 <= i <= p.len(),
    ensures
        fits_from(p, i, hi),
    decreases p.len() - i,
{
    if i < p.len() {
        lemma_run_len_holds(p, i);
        let j: int = i + leading_zeros(p, i);
        if j < p.len() {
            lemma_run_len_holds(p, j);
            lemma_small_row_fits(p, j + run_len(p, j), p[j]);
        }
    }
}

/// Number of words for a run of `n` zeros: one for every `ZERO_RUN_MAX`
/// zeros and one for what is left, so never more than `n`.
pub proof fn lemma_zero_words_len(n: int, then_high: bool)
    requires
        0 <= n,
    ensures
        zero_words(n, then_high).len() == (n + ZERO_RUN_MAX - 1) / (ZERO_RUN_MAX as int),
        zero_words(n, then_high).len() <= n,
    decreases n,
{
    if n > ZERO_RUN_MAX {
        lemma_zero_words_len(n - ZERO_RUN_MAX, then_high);
    }
}

/// Number of words for a run of `n` pixels at the high value: one for
/// every `DATA_MAX` pixels and one for what is left, so never more than `n`.
pub proof fn lemma_high_words_len(n: int)
    requires
        0 <= n,
    ensures
        high_words(n).len() == (n + DATA_MAX - 1) / (DATA_MAX as int),
        high_words(n).len() <= n,
    decreases n,
{
    if n > DATA_MAX {
        lemma_high_words_len(n - DATA_MAX);
    }
}

/// The words for the pixels of a row from index `i` on: at least one where
/// there is a pixel, at most three for each pixel.
pub proof fn lemma_encode_from_len(p: Seq<int>, i: int, hi: int)
    requires
        0 <= i <= p.len(),
    ensures
        encode_from(p, i, hi).len() <= 3 * (p.len() - i),
        i < p.len() ==> encode_from(p, i, hi).len() >= 1,
    decreases p.len() - i,
{
    if i < p.len() {
        lemma_run_len_holds(p, i);
        let nz: int = leading_zeros(p, i);
        let j: int = i + nz;
        lemma_zero_words_len(nz, false);
        lemma_zero_words_len(nz, true);
        if j < p.len() {
            lemma_run_len_holds(p, j);
            let np: int = run_len(p, j) as int;
            lemma_high_words_len(np);
            lemma_encode_from_len(p, j + np, p[j]);
        }
    }
}

/// Every word for a run of zeros without a pixel behind it is a zero-run
/// word.
pub proof fn lemma_zero_words_opcode(n: int, k: int)
    requires
        0 <= k < zero_words(n, false).len(),
    ensures
        opcode(zero_words(n, false)[k]) == OP_ZERO_RUN,
        1 <= data(zero_words(n, false)[k]) <= ZERO_RUN_MAX,
    decreases n,
{
    if n <= ZERO_RUN_MAX {
        lemma_word_parts(OP_ZERO_RUN as int, n);
    } else {
        lemma_word_parts(OP_ZERO_RUN as int, ZERO_RUN_MAX as int);
        if k > 0 {
            lemma_zero_words_opcode(n - ZERO_RUN_MAX, k - 1);
        }
    }
}

/// The value in front of pixel `k` of `p`, as the high value stands when
/// the encoder comes to that pixel and no pixel is 0: 1 at the start.
pub open spec fn value_before(p: Seq<int>, k: int) -> int {
    if k <= 0 {
        1
    } else {
        p[k - 1]
    }
}

/// Whether every pixel of `p` is above 0 and differs from the value in
/// front of it, but by no more than `DATA_MAX`.
pub open spec fn is_staircase(p: Seq<int>) -> bool {
    forall|k: int|
        0 <= k < p.len() ==> {
            &&& 0 < #[trigger] p[k] <= i32::MAX
            &&& p[k] != value_before(p, k)
            &&& !is_jump(p[k] - value_before(p, k))
        }
}

/// On a staircase, the words for the pixels from index `i` on are one
/// storing increment or decrement for each pixel.
pub proof fn lemma_staircase_from(p: Seq<int>, i: int)
    requires
        is_staircase(p),
        0 <= i <= p.len(),
    ensures
        encode_from(p, i, value_before(p, i)).len() == p.len() - i,
        forall|k: int|
            i <= k < p.len() ==> #[trigger] encode_from(p, i, value_before(p, i))[k - i]
                == change_words(value_before(p, k), p[k], true)[0],
    decreases p.len() - i,
{
    if i < p.len() {
        let hi: int = value_before(p, i);
        lemma_staircase_from(p, i + 1);
        let ws: Seq<i16> = segment_words(hi, 0, p[i], 1);
        let more: Seq<i16> = encode_from(p, i + 1, p[i]);
        assert forall|k: int| i <= k < p.len() implies #[trigger] encode_from(p, i, hi)[k - i]
            == change_words(value_before(p, k), p[k], true)[0] by {
            if k > i {
                assert((ws + more)[k - i] == more[k - (i + 1)]);
            }
        }
    }
}

/// A staircase needs no set-high, so it can be encoded.
pub proof fn lemma_staircase_fits(p: Seq<int>, i: int)
    requires
        is_staircase(p),
        0 <= i <= p.len(),
    ensures
        fits_from(p, i, value_before(p, i)),
    decreases p.len() - i,
{
    if i < p.len() {
        lemma_staircase_fits(p, i + 1);
    }
}

} // verus!
