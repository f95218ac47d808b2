//! What holds of the codec as a whole: a decode gives back what an encode
//! took, when an encode is owed, and how long a line list can get.

use vstd::prelude::*;
use crate::encoder::{capacity, is_encoded};
use crate::expansion::{
    is_row, is_staircase, lemma_encode_from_expands, lemma_encode_from_len, lemma_small_row_fits,
    lemma_staircase_fits, lemma_staircase_from, lemma_zero_words_len, lemma_zero_words_opcode,
    value_before,
};
use crate::layout::{
    header_of, opcode, HEADER_LEN, HIGH_MAX, LAST_MAX, OP_ZERO_RUN, VERSION, ZERO_RUN_MAX,
};
use crate::runs::{
    change_words, clamp, clamped, encode_from, encoding, fits_from, is_jump, lemma_run_len_is,
    representable, segment_words, zero_words,
};
use crate::stream::{
    expand, line_list_ok, list_body, list_row, repeat, well_formed, window_pixel, window_start,
};

verus! {

/// The pixels that the encoder takes make a row.
pub proof fn lemma_clamped_is_row(px: Seq<i32>)
    ensures
        is_row(clamped(px)),
        clamped(px).len() == px.len(),
        (forall|k: int| 0 <= k < px.len() ==> px[k] >= 0) ==> forall|k: int|
            0 <= k < px.len() ==> clamped(px)[k] == px[k],
{
}

/// Round trip of a row: the words that the encoder makes for a row of
/// nonnegative pixels are valid and expand to that row again, as long as
/// the row can be encoded.
pub proof fn lemma_encoding_expands(p: Seq<int>)
    requires
        is_row(p),
        representable(p),
    ensures
        well_formed(encoding(p), 1),
        expand(encoding(p), 1) == p,
{
    lemma_encode_from_expands(p, 0, 1);
}

/// What an encode leaves is a valid line list whose header records the
/// index of its last word and whose row is the pixels that were encoded,
/// negative ones as 0.
pub proof fn lemma_encoded_list(ll: Seq<i16>, px: Seq<i32>, before: Seq<i16>)
    requires
        is_encoded(ll, px, before),
    ensures
        line_list_ok(ll),
        header_of(ll) is Current,
        header_of(ll)->header_len == HEADER_LEN,
        header_of(ll)->version == VERSION,
        header_of(ll).first() == HEADER_LEN,
        header_of(ll).last() == HEADER_LEN + encoding(clamped(px)).len() - 1,
        header_of(ll).last() > 0,
        list_body(ll) == encoding(clamped(px)),
        list_row(ll) == clamped(px),
{
    let p: Seq<int> = clamped(px);
    assert(list_body(ll) =~= encoding(p));
    lemma_clamped_is_row(px);
    lemma_encoding_expands(p);
}

/// Round trip with clamping: a decode of what an encode of `px` left, from
/// start 0 and for as many pixels, is accepted and gives every pixel of
/// `px` back, a negative one as 0.
pub proof fn lemma_round_trip_clamped(ll: Seq<i16>, px: Seq<i32>, before: Seq<i16>)
    requires
        is_encoded(ll, px, before),
    ensures
        line_list_ok(ll),
        header_of(ll).last() > 0,
        forall|i: int|
            0 <= i < px.len() ==> window_pixel(list_row(ll), 0, px.len() as int, i) == clamp(
                #[trigger] px[i],
            ),
{
    lemma_encoded_list(ll, px, before);
}

/// Round trip: where no pixel of `px` is negative, a decode of what an
/// encode of `px` left, from start 0 and for as many pixels, is accepted
/// and gives `px` back.
pub proof fn lemma_round_trip(ll: Seq<i16>, px: Seq<i32>, before: Seq<i16>)
    requires
        is_encoded(ll, px, before),
        forall|k: int| 0 <= k < px.len() ==> px[k] >= 0,
    ensures
        line_list_ok(ll),
        header_of(ll).last() > 0,
        forall|i: int|
            0 <= i < px.len() ==> window_pixel(list_row(ll), 0, px.len() as int, i) == #[trigger] px[i],
{
    lemma_round_trip_clamped(ll, px, before);
}

/// Windows of an encoded row: a decode of what an encode of `px` left, from
/// any start `xs` and for any number of pixels, shows the pixels of `px`
/// from `window_start(xs)` on, negative ones as 0, and 0 behind the end of
/// `px` or behind position `xs + npix`.
pub proof fn lemma_window_of_encoded(
    ll: Seq<i16>,
    px: Seq<i32>,
    before: Seq<i16>,
    xs: int,
    npix: int,
    i: int,
)
    requires
        is_encoded(ll, px, before),
        0 <= i < npix,
    ensures
        line_list_ok(ll),
        header_of(ll).last() > 0,
        window_pixel(list_row(ll), xs, npix, i) == ({
            let k: int = window_start(xs) + i;
            if k < xs + npix && k < px.len() {
                clamp(px[k])
            } else {
                0
            }
        }),
{
    lemma_encoded_list(ll, px, before);
}

/// When an encode is owed: a row of `n` pixels, none above `HIGH_MAX`, is
/// encoded into any destination of at least `HEADER_LEN + 3 * n` words, as
/// long as the header's length fields can record an index that high.
pub proof fn lemma_encode_succeeds(px: Seq<i32>, len: int)
    requires
        forall|k: int| 0 <= k < px.len() ==> #[trigger] px[k] <= HIGH_MAX,
        HEADER_LEN + 3 * px.len() <= len,
        HEADER_LEN + 3 * px.len() <= LAST_MAX + 1,
    ensures
        representable(clamped(px)),
        HEADER_LEN + encoding(clamped(px)).len() <= capacity(len),
{
    lemma_small_row_fits(clamped(px), 0, 1);
    lemma_encoding_len(clamped(px));
}

/// Size of a line list: the instruction words of a row of `n` pixels are at
/// most `3 * n`, so a destination of `HEADER_LEN + 3 * n` words holds the
/// list of any such row.
pub proof fn lemma_encoding_len(p: Seq<int>)
    ensures
        encoding(p).len() <= 3 * p.len(),
        p.len() > 0 ==> encoding(p).len() >= 1,
{
    lemma_encode_from_len(p, 0, 1);
}

/// A row of `n` zeros: its words are zero-run words only, one for every
/// `ZERO_RUN_MAX` zeros and one for what is left, so at least two where `n`
/// is above `ZERO_RUN_MAX`; and they expand to `n` zeros again.
pub proof fn lemma_zero_row(n: int)
    requires
        1 <= n,
    ensures
        encoding(repeat(0, n)) == zero_words(n, false),
        encoding(repeat(0, n)).len() == (n + ZERO_RUN_MAX - 1) / (ZERO_RUN_MAX as int),
        n > ZERO_RUN_MAX ==> encoding(repeat(0, n)).len() >= 2,
        forall|k: int|
            0 <= k < encoding(repeat(0, n)).len() ==> opcode(#[trigger] encoding(repeat(0, n))[k])
                == OP_ZERO_RUN,
        representable(repeat(0, n)),
        well_formed(encoding(repeat(0, n)), 1),
        expand(encoding(repeat(0, n)), 1) == repeat(0, n),
{
    let p: Seq<int> = repeat(0, n);
    lemma_run_len_is(p, 0, n);
    lemma_zero_words_len(n, false);
    assert forall|k: int| 0 <= k < encoding(p).len() implies opcode(#[trigger] encoding(p)[k])
        == OP_ZERO_RUN by {
        lemma_zero_words_opcode(n, k);
    }
    lemma_encoding_expands(p);
}

/// A row of `n` pixels of one value `v` above 0: its words are those of one
/// segment without zeros, and they expand to `n` pixels of value `v` again,
/// whatever `n` is, as long as a set-high can carry `v` where one is needed.
pub proof fn lemma_constant_row(v: int, n: int)
    requires
        1 <= n,
        0 < v <= i32::MAX,
        is_jump(v - 1) ==> v <= HIGH_MAX,
    ensures
        encoding(repeat(v, n)) == segment_words(1, 0, v, n),
        representable(repeat(v, n)),
        well_formed(encoding(repeat(v, n)), 1),
        expand(encoding(repeat(v, n)), 1) == repeat(v, n),
{
    let p: Seq<int> = repeat(v, n);
    lemma_run_len_is(p, 0, n);
    assert(segment_words(1, 0, v, n) + encode_from(p, n, v) =~= segment_words(1, 0, v, n));
    assert(fits_from(p, n, v));
    lemma_encoding_expands(p);
}

/// Alternating single pixels: on a staircase every pixel becomes exactly
/// one word, a storing increment or decrement by its distance from the
/// pixel in front of it, and the words expand to the row again.
pub proof fn lemma_staircase(p: Seq<int>)
    requires
        is_staircase(p),
    ensures
        encoding(p).len() == p.len(),
        forall|k: int|
            0 <= k < p.len() ==> #[trigger] encoding(p)[k] == change_words(
                value_before(p, k),
                p[k],
                true,
            )[0],
        representable(p),
        well_formed(encoding(p), 1),
        expand(encoding(p), 1) == p,
{
    lemma_staircase_from(p, 0);
    assert forall|k: int| 0 <= k < p.len() implies #[trigger] encoding(p)[k] == change_words(
        value_before(p, k),
        p[k],
        true,
    )[0] by {
        assert(encode_from(p, 0, value_before(p, 0))[k - 0] == change_words(
            value_before(p, k),
            p[k],
            true,
        )[0]);
    }
    lemma_staircase_fits(p, 0);
    lemma_encoding_expands(p);
}

} // verus!
