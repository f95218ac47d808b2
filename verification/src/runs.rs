//! The encoder's model: how a row of pixels is cut into runs, and the
//! instruction words that each run becomes.

use vstd::prelude::*;
use crate::layout::{
    word, DATA_MAX, HIGH_MAX, OP_DEC_HIGH, OP_DEC_STORE, OP_HIGH_RUN, OP_INC_HIGH, OP_INC_STORE,
    OP_SET_HIGH, OP_ZERO_RUN, OP_ZERO_RUN_HIGH, ZERO_RUN_MAX,
};

verus! {

/// A pixel value as the encoder takes it: negative values count as 0.
pub open spec fn clamp(v: i32) -> int {
    if v < 0 {
        0
    } else {
        v as int
    }
}

/// The pixels `px` as the encoder takes them.
pub open spec fn clamped(px: Seq<i32>) -> Seq<int> {
    Seq::new(px.len(), |k: int| clamp(px[k]))
}

/// Length of the longest run of equal pixels of `p` that starts at `i`.
pub open spec fn run_len(p: Seq<int>, i: int) -> nat
    decreases p.len() - i,
{
    if 0 <= i && i + 1 < p.len() && p[i + 1] == p[i] {
        1 + run_len(p, i + 1)
    } else {
        1
    }
}

/// The words for a run of `n` zeros: zero-run words of `ZERO_RUN_MAX` zeros
/// each, and a last one with what is left. With `then_high`, the last word
/// is a zero-run-plus-one-pixel word instead, which adds one pixel at the
/// high value behind the zeros.
pub open spec fn zero_words(n: int, then_high: bool) -> Seq<i16>
    decreases n,
{
    if n <= 0 {
        Seq::empty()
    } else if n <= ZERO_RUN_MAX {
        if then_high {
            seq![word(OP_ZERO_RUN_HIGH as int, n + 1)]
        } else {
            seq![word(OP_ZERO_RUN as int, n)]
        }
    } else {
        seq![word(OP_ZERO_RUN as int, ZERO_RUN_MAX as int)] + zero_words(
            n - ZERO_RUN_MAX,
            then_high,
        )
    }
}

/// The words for a run of `n` pixels at the high value: high-run words of
/// `DATA_MAX` pixels each, and a last one with what is left.
pub open spec fn high_words(n: int) -> Seq<i16>
    decreases n,
{
    if n <= 0 {
        Seq::empty()
    } else if n <= DATA_MAX {
        seq![word(OP_HIGH_RUN as int, n)]
    } else {
        seq![word(OP_HIGH_RUN as int, DATA_MAX as int)] + high_words(n - DATA_MAX)
    }
}

/// Whether a change of the high value by `dv` needs a set-high instruction.
pub open spec fn is_jump(dv: int) -> bool {
    dv > DATA_MAX || dv < -DATA_MAX
}

/// The words that change the high value from `hi` to `pv`: none where they
/// are equal, a two-word set-high where they are more than `DATA_MAX` apart,
/// else one increment or decrement word, which with `store` also puts out
/// one pixel.
pub open spec fn change_words(hi: int, pv: int, store: bool) -> Seq<i16> {
    let dv: int = pv - hi;
    if dv == 0 {
        Seq::empty()
    } else if is_jump(dv) {
        seq![word(OP_SET_HIGH as int, pv % 4096), (pv / 4096) as i16]
    } else if dv > 0 {
        seq![
            word(
                if store {
                    OP_INC_STORE as int
                } else {
                    OP_INC_HIGH as int
                },
                dv,
            ),
        ]
    } else {
        seq![
            word(
                if store {
                    OP_DEC_STORE as int
                } else {
                    OP_DEC_HIGH as int
                },
                -dv,
            ),
        ]
    }
}

/// The words for `nz` zeros followed by `np` pixels of value `pv`, where
/// the high value was `hi` before. A single pixel is fused into the word in
/// front of it: into the increment or decrement where no zeros come between,
/// else into the last zero-run word.
pub open spec fn segment_words(hi: int, nz: int, pv: int, np: int) -> Seq<i16> {
    let dv: int = pv - hi;
    if np == 1 && nz == 0 && dv != 0 && !is_jump(dv) {
        change_words(hi, pv, true)
    } else if np == 1 && nz > 0 {
        change_words(hi, pv, false) + zero_words(nz, true)
    } else {
        change_words(hi, pv, false) + zero_words(nz, false) + high_words(np)
    }
}

/// Number of pixels of `p` from index `i` on.
pub open spec fn pixels_left(p: Seq<int>, i: int) -> nat {
    if i < p.len() {
        (p.len() - i) as nat
    } else {
        0
    }
}

/// Number of zeros at the front of the pixels of `p` from `i` on.
pub open spec fn leading_zeros(p: Seq<int>, i: int) -> int {
    if p[i] == 0 {
        run_len(p, i) as int
    } else {
        0
    }
}

/// The instruction words for the pixels of `p` from index `i` on, where the
/// high value is `hi` at that point. The pixels are taken one segment at a
/// time: a run of zeros, which may be empty, and the run of equal nonzero
/// pixels behind it. Zeros at the end of the row make a segment by
/// themselves.
pub open spec fn encode_from(p: Seq<int>, i: int, hi: int) -> Seq<i16>
    decreases pixels_left(p, i),
{
    if i < 0 || i >= p.len() {
        Seq::empty()
    } else {
        let nz: int = leading_zeros(p, i);
        let j: int = i + nz;
        if j >= p.len() {
            zero_words(nz, false)
        } else {
            let np: int = run_len(p, j) as int;
            segment_words(hi, nz, p[j], np) + encode_from(p, j + np, p[j])
        }
    }
}

/// Whether every set-high instruction that the pixels of `p` from index `i`
/// on need can carry its value, where the high value is `hi` at that point.
pub open spec fn fits_from(p: Seq<int>, i: int, hi: int) -> bool
    decreases pixels_left(p, i),
{
    if i < 0 || i >= p.len() {
        true
    } else {
        let nz: int = leading_zeros(p, i);
        let j: int = i + nz;
        if j >= p.len() {
            true
        } else {
            let np: int = run_len(p, j) as int;
            (is_jump(p[j] - hi) ==> p[j] <= HIGH_MAX) && fits_from(p, j + np, p[j])
        }
    }
}

/// The instruction words for the row `p`. The high value starts at 1.
pub open spec fn encoding(p: Seq<int>) -> Seq<i16> {
    encode_from(p, 0, 1)
}

/// Whether the row `p` can be encoded: no pixel that needs a set-high
/// instruction is above `HIGH_MAX`.
pub open spec fn representable(p: Seq<int>) -> bool {
    fits_from(p, 0, 1)
}

/// What a run is: `n` equal pixels from `i` on, with the row's end or
/// another value behind them, make the run at `i`.
pub proof fn lemma_run_len_is(p: Seq<int>, i: int, n: int)
    requires
        0 <= i,
        1 <= n,
        i + n <= p.len(),
        forall|k: int| i <= k < i + n ==> p[k] == p[i],
        i + n == p.len() || p[i + n] != p[i],
    ensures
        run_len(p, i) == n,
    decreases n,
{
    if n > 1 {
        lemma_run_len_is(p, i + 1, n - 1);
    }
}

/// A run lies inside the row, holds equal pixels only, and cannot be
/// made longer.
pub proof fn lemma_run_len_holds(p: Seq<int>, i: int)
    requires
        0 <= i < p.len(),
    ensures
        1 <= run_len(p, i),
        i + run_len(p, i) <= p.len(),
        forall|k: int| i <= k < i + run_len(p, i) ==> p[k] == p[i],
        i + run_len(p, i) == p.len() || p[i + run_len(p, i) as int] != p[i],
    decreases p.len() - i,
{
    if i + 1 < p.len() && p[i + 1] == p[i] {
        lemma_run_len_holds(p, i + 1);
    }
}

} // verus!
