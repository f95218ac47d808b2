//! Encoding: from the pixels of a row to a line list.

use vstd::prelude::*;
use crate::layout::{
    header_words, make_word, PlioError, DATA_MAX, HEADER_LEN, HIGH_MAX, LAST_MAX, OP_DEC_HIGH,
    OP_DEC_STORE, OP_HIGH_RUN, OP_INC_HIGH, OP_INC_STORE, OP_SET_HIGH, OP_ZERO_RUN,
    OP_ZERO_RUN_HIGH, VERSION, ZERO_RUN_MAX,
};
use crate::runs::{
    change_words, clamp, clamped, encode_from, encoding, fits_from, high_words,
    lemma_run_len_is, representable, run_len, segment_words, zero_words,
};

verus! {

/// Number of words that a destination of `len` words can take: no more
/// than the header's length fields can record.
pub open spec fn capacity(len: int) -> int {
    if len <= LAST_MAX {
        len
    } else {
        LAST_MAX + 1
    }
}

/// The words `a` with the words `ws` written over them from index `at` on.
pub open spec fn overwrite(a: Seq<i16>, at: int, ws: Seq<i16>) -> Seq<i16> {
    Seq::new(
        a.len(),
        |k: int|
            if at <= k < at + ws.len() {
                ws[k - at]
            } else {
                a[k]
            },
    )
}

/// The words of `ws` that fit where they are written from index `at` on
/// and there is room for `room` words: all of them, or those in front.
pub open spec fn fitting(ws: Seq<i16>, at: int, room: int) -> Seq<i16> {
    if at + ws.len() <= room {
        ws
    } else {
        ws.take(room - at)
    }
}

/// What writing the words `ws` at index `at` gives: `after` is `before`
/// with the words that fit in place, and the result is the next free index,
/// or a refusal where not all of them fit.
pub open spec fn put_result(
    before: Seq<i16>,
    after: Seq<i16>,
    at: int,
    ws: Seq<i16>,
    res: Result<usize, PlioError>,
) -> bool {
    let room: int = capacity(before.len() as int);
    &&& after == overwrite(before, at, fitting(ws, at, room))
    &&& at + ws.len() <= room ==> res == Ok::<usize, PlioError>((at + ws.len()) as usize)
    &&& at + ws.len() > room ==> res == Err::<usize, PlioError>(PlioError::CapacityExceeded)
}

/// Whether `ll` is what an encode of the pixels `px` leaves in a
/// destination that held `before`: the header and the instruction words at
/// its front, and the rest of `before` behind them.
pub open spec fn is_encoded(ll: Seq<i16>, px: Seq<i32>, before: Seq<i16>) -> bool {
    let body: Seq<i16> = encoding(clamped(px));
    &&& px.len() > 0
    &&& representable(clamped(px))
    &&& HEADER_LEN + body.len() <= capacity(before.len() as int)
    &&& ll == overwrite(before, 0, header_words(HEADER_LEN + body.len() - 1) + body)
}

/// Writing `ws1` and then `ws2` behind it is writing them as one.
pub proof fn lemma_overwrite_twice(a: Seq<i16>, at: int, ws1: Seq<i16>, ws2: Seq<i16>)
    requires
        0 <= at,
    ensures
        overwrite(overwrite(a, at, ws1), at + ws1.len(), ws2) == overwrite(a, at, ws1 + ws2),
{
}

/// Writing the words of `ws1` that fit and then, where all did, those of
/// `ws2` that fit behind them is writing those of `ws1 + ws2` that fit.
pub proof fn lemma_fitting_twice(a: Seq<i16>, at: int, ws1: Seq<i16>, ws2: Seq<i16>, room: int)
    requires
        0 <= at <= room,
    ensures
        at + ws1.len() <= room ==> overwrite(
            overwrite(a, at, ws1),
            at + ws1.len(),
            fitting(ws2, at + ws1.len(), room),
        ) == overwrite(a, at, fitting(ws1 + ws2, at, room)),
        at + ws1.len() > room ==> fitting(ws1, at, room) == fitting(ws1 + ws2, at, room),
{
    if at + ws1.len() <= room {
        lemma_overwrite_twice(a, at, ws1, fitting(ws2, at + ws1.len(), room));
    }
}

/// The pixel value `v` as the encoder takes it.
pub fn clamp_pixel(v: i32) -> (r: i32)
    ensures
        r == clamp(v),
{
    if v < 0 {
        0
    } else {
        v
    }
}

/// Writes the word `w` at index `at` of `lldst`, where there is room.
fn put(lldst: &mut [i16], at: usize, w: i16) -> (res: Result<usize, PlioError>)
    requires
        at <= capacity(old(lldst)@.len() as int),
    ensures
        put_result(old(lldst)@, final(lldst)@, at as int, seq![w], res),
{
    if at >= lldst.len() || at > LAST_MAX {
        assert(lldst@ =~= overwrite(old(lldst)@, at as int, seq![w].take(0)));
        return Err(PlioError::CapacityExceeded);
    }
    lldst[at] = w;
    assert(lldst@ =~= overwrite(old(lldst)@, at as int, seq![w]));
    Ok(at + 1)
}

/// Writes the words for a run of `n` zeros from index `at` of `lldst` on,
/// with one pixel at the high value behind them where `then_high` is set.
fn put_zero_run(lldst: &mut [i16], at: usize, n: usize, then_high: bool) -> (res: Result<
    usize,
    PlioError,
>)
    requires
        at <= capacity(old(lldst)@.len() as int),
    ensures
        put_result(old(lldst)@, final(lldst)@, at as int, zero_words(n as int, then_high), res),
{
    let ghost all: Seq<i16> = zero_words(n as int, then_high);
    let ghost room: int = capacity(lldst@.len() as int);
    let ghost mut done: Seq<i16> = Seq::empty();
    let mut left: usize = n;
    let mut next: usize = at;
    while left > ZERO_RUN_MAX as usize
        invariant
            all == zero_words(n as int, then_high),
            room == capacity(old(lldst)@.len() as int),
            done + zero_words(left as int, then_high) == all,
            next == at + done.len(),
            next <= room,
            lldst@ == overwrite(old(lldst)@, at as int, done),
        decreases left,
    {
        let w: i16 = make_word(OP_ZERO_RUN, ZERO_RUN_MAX);
        let ghost more: Seq<i16> = zero_words(left - ZERO_RUN_MAX, then_high);
        match put(lldst, next, w) {
            Ok(x) => {
                next = x;
            },
            Err(e) => {
                proof {
                    lemma_fitting_twice(lldst@, next as int, seq![w], more, room);
                    lemma_fitting_twice(old(lldst)@, at as int, done, seq![w] + more, room);
                }
                return Err(e);
            },
        }
        proof {
            lemma_overwrite_twice(old(lldst)@, at as int, done, seq![w]);
            done = done + seq![w];
        }
        left = left - ZERO_RUN_MAX as usize;
    }
    if left > 0 {
        let last: i16 = if then_high {
            make_word(OP_ZERO_RUN_HIGH, left as i32 + 1)
        } else {
            make_word(OP_ZERO_RUN, left as i32)
        };
        let r: Result<usize, PlioError> = put(lldst, next, last);
        proof {
            lemma_fitting_twice(old(lldst)@, at as int, done, seq![last], room);
        }
        r
    } else {
        Ok(next)
    }
}

/// Writes the words for a run of `n` pixels at the high value from index
/// `at` of `lldst` on.
fn put_high_run(lldst: &mut [i16], at: usize, n: usize) -> (res: Result<usize, PlioError>)
    requires
        at <= capacity(old(lldst)@.len() as int),
    ensures
        put_result(old(lldst)@, final(lldst)@, at as int, high_words(n as int), res),
{
    let ghost all: Seq<i16> = high_words(n as int);
    let ghost room: int = capacity(lldst@.len() as int);
    let ghost mut done: Seq<i16> = Seq::empty();
    let mut left: usize = n;
    let mut next: usize = at;
    while left > DATA_MAX as usize
        invariant
            all == high_words(n as int),
            room == capacity(old(lldst)@.len() as int),
            done + high_words(left as int) == all,
            next == at + done.len(),
            next <= room,
            lldst@ == overwrite(old(lldst)@, at as int, done),
        decreases left,
    {
        let w: i16 = make_word(OP_HIGH_RUN, DATA_MAX);
        let ghost more: Seq<i16> = high_words(left - DATA_MAX);
        match put(lldst, next, w) {
            Ok(x) => {
                next = x;
            },
            Err(e) => {
                proof {
                    lemma_fitting_twice(lldst@, next as int, seq![w], more, room);
                    lemma_fitting_twice(old(lldst)@, at as int, done, seq![w] + more, room);
                }
                return Err(e);
            },
        }
        proof {
            lemma_overwrite_twice(old(lldst)@, at as int, done, seq![w]);
            done = done + seq![w];
        }
        left = left - DATA_MAX as usize;
    }
    if left > 0 {
        let last: i16 = make_word(OP_HIGH_RUN, left as i32);
        let r: Result<usize, PlioError> = put(lldst, next, last);
        proof {
            lemma_fitting_twice(old(lldst)@, at as int, done, seq![last], room);
        }
        r
    } else {
        Ok(next)
    }
}

/// Writes the words that change the high value from `hi` to `pv` from index
/// `at` of `lldst` on. The second word of a set-high keeps the low 16 bits
/// of its value.
fn put_change(lldst: &mut [i16], at: usize, hi: i32, pv: i32, store: bool) -> (res: Result<
    usize,
    PlioError,
>)
    requires
        at <= capacity(old(lldst)@.len() as int),
        0 < hi,
        0 < pv,
    ensures
        put_result(
            old(lldst)@,
            final(lldst)@,
            at as int,
            change_words(hi as int, pv as int, store),
            res,
        ),
{
    let ghost all: Seq<i16> = change_words(hi as int, pv as int, store);
    let ghost room: int = capacity(lldst@.len() as int);
    let dv: i32 = pv - hi;
    if dv == 0 {
        assert(lldst@ =~= overwrite(old(lldst)@, at as int, all));
        return Ok(at);
    }
    if dv > DATA_MAX || dv < -DATA_MAX {
        let w1: i16 = make_word(OP_SET_HIGH, pv % 4096);
        let w2: i16 = #[verifier::truncate]
        ((pv / 4096) as i16);
        proof {
            assert(all =~= seq![w1] + seq![w2]);
            lemma_fitting_twice(old(lldst)@, at as int, seq![w1], seq![w2], room);
        }
        let next: usize = match put(lldst, at, w1) {
            Ok(x) => x,
            Err(e) => {
                return Err(e);
            },
        };
        return put(lldst, next, w2);
    }
    let w: i16 = if dv > 0 {
        make_word(
            if store {
                OP_INC_STORE
            } else {
                OP_INC_HIGH
            },
            dv,
        )
    } else {
        make_word(
            if store {
                OP_DEC_STORE
            } else {
                OP_DEC_HIGH
            },
            -dv,
        )
    };
    put(lldst, at, w)
}

/// Writes the words for `nz` zeros followed by `np` pixels of value `pv`
/// from index `at` of `lldst` on, where the high value was `hi` before.
fn put_segment(lldst: &mut [i16], at: usize, hi: i32, nz: usize, pv: i32, np: usize) -> (res:
    Result<usize, PlioError>)
    requires
        at <= capacity(old(lldst)@.len() as int),
        0 < hi,
        0 < pv,
    ensures
        put_result(
            old(lldst)@,
            final(lldst)@,
            at as int,
            segment_words(hi as int, nz as int, pv as int, np as int),
            res,
        ),
{
    let ghost room: int = capacity(lldst@.len() as int);
    let dv: i32 = pv - hi;
    let small: bool = dv != 0 && -DATA_MAX <= dv && dv <= DATA_MAX;
    if np == 1 && nz == 0 && small {
        return put_change(lldst, at, hi, pv, true);
    }
    let ghost w1: Seq<i16> = change_words(hi as int, pv as int, false);
    if np == 1 && nz > 0 {
        proof {
            lemma_fitting_twice(old(lldst)@, at as int, w1, zero_words(nz as int, true), room);
        }
        let next: usize = match put_change(lldst, at, hi, pv, false) {
            Ok(x) => x,
            Err(e) => {
                return Err(e);
            },
        };
        return put_zero_run(lldst, next, nz, true);
    }
    let ghost w2: Seq<i16> = zero_words(nz as int, false);
    let ghost w3: Seq<i16> = high_words(np as int);
    proof {
        lemma_fitting_twice(old(lldst)@, at as int, w1, w2, room);
        lemma_fitting_twice(old(lldst)@, at as int, w1 + w2, w3, room);
    }
    let next: usize = match put_change(lldst, at, hi, pv, false) {
        Ok(x) => x,
        Err(e) => {
            proof {
                lemma_fitting_twice(old(lldst)@, at as int, w1, w2 + w3, room);
            }
            return Err(e);
        },
    };
    let after: usize = match put_zero_run(lldst, next, nz, false) {
        Ok(x) => x,
        Err(e) => {
            return Err(e);
        },
    };
    put_high_run(lldst, after, np)
}

/// The pixels `base .. base + npix` of `pxsrc` as the encoder takes them.
pub open spec fn source_row(pxsrc: Seq<i32>, base: int, npix: int) -> Seq<int> {
    clamped(pxsrc.subrange(base, base + npix))
}

/// Index behind the run of equal pixels that starts at pixel `j` of the
/// row `base .. base + npix` of `pxsrc`.
fn run_end(pxsrc: &[i32], base: usize, npix: usize, j: usize) -> (e: usize)
    requires
        base + npix <= pxsrc@.len(),
        j < npix,
    ensures
        j < e <= npix,
        e - j == run_len(source_row(pxsrc@, base as int, npix as int), j as int),
        e < npix ==> source_row(pxsrc@, base as int, npix as int)[e as int] != source_row(
            pxsrc@,
            base as int,
            npix as int,
        )[j as int],
{
    let ghost p: Seq<int> = source_row(pxsrc@, base as int, npix as int);
    assert(pxsrc@.len() == pxsrc.len());
    let v: i32 = clamp_pixel(pxsrc[base + j]);
    let mut e: usize = j + 1;
    while e < npix && clamp_pixel(pxsrc[base + e]) == v
        invariant
            base + npix <= pxsrc@.len() <= usize::MAX,
            p == source_row(pxsrc@, base as int, npix as int),
            j < e <= npix,
            v == p[j as int],
            forall|k: int| j <= k < e ==> p[k] == p[j as int],
        decreases npix - e,
    {
        e += 1;
    }
    proof {
        lemma_run_len_is(p, j as int, e - j);
    }
    e
}

/// What a refused encode leaves in a destination that held `before`: the
/// instruction words `body` as far as they fit behind the place of the
/// header, and no header.
pub open spec fn refused_rest(before: Seq<i16>, body: Seq<i16>) -> Seq<i16> {
    let room: int = capacity(before.len() as int);
    if room >= HEADER_LEN {
        overwrite(before, HEADER_LEN as int, fitting(body, HEADER_LEN as int, room))
    } else {
        before
    }
}

/// Converts the `npix` pixels of `pxsrc` from index `xs` on into a line
/// list in `lldst`, negative pixels counting as 0, and returns the index of
/// the last word written, which the header records as the list's length.
///
/// With `npix` 0 nothing is written and 0 returned. The conversion is
/// refused where the list does not fit `lldst` or the header's length
/// fields, and else where a pixel cannot be carried; `lldst` then holds the
/// instruction words that fit, and no header.
pub fn pl_p2li(pxsrc: &[i32], xs: i32, lldst: &mut [i16], npix: usize) -> (res: Result<
    usize,
    PlioError,
>)
    requires
        npix > 0 ==> 0 <= xs && xs + npix <= pxsrc@.len(),
    ensures
        final(lldst)@.len() == old(lldst)@.len(),
        npix == 0 ==> res == Ok::<usize, PlioError>(0) && final(lldst)@ == old(lldst)@,
        npix > 0 ==> ({
            let px: Seq<i32> = pxsrc@.subrange(xs as int, xs + npix);
            let body: Seq<i16> = encoding(clamped(px));
            let total: int = HEADER_LEN + body.len();
            let room: int = capacity(old(lldst)@.len() as int);
            &&& total > room ==> {
                &&& res == Err::<usize, PlioError>(PlioError::CapacityExceeded)
                &&& final(lldst)@ == refused_rest(old(lldst)@, body)
            }
            &&& total <= room && !representable(clamped(px)) ==> {
                &&& res == Err::<usize, PlioError>(PlioError::ValueOutOfRange)
                &&& final(lldst)@ == refused_rest(old(lldst)@, body)
            }
            &&& total <= room && representable(clamped(px)) ==> {
                &&& res == Ok::<usize, PlioError>((total - 1) as usize)
                &&& is_encoded(final(lldst)@, px, old(lldst)@)
            }
        }),
{
    if npix == 0 {
        return Ok(0);
    }
    let ghost p: Seq<int> = source_row(pxsrc@, xs as int, npix as int);
    let ghost body: Seq<i16> = encoding(p);
    let ghost room: int = capacity(lldst@.len() as int);
    if lldst.len() < HEADER_LEN {
        return Err(PlioError::CapacityExceeded);
    }
    assert(pxsrc@.len() == pxsrc.len());
    let base: usize = xs as usize;
    let mut i: usize = 0;
    let mut hi: i32 = 1;
    let mut at: usize = HEADER_LEN;
    let mut fits: bool = true;
    let ghost mut done: Seq<i16> = Seq::empty();
    while i < npix
        invariant
            base == xs,
            base + npix <= pxsrc@.len() <= usize::MAX,
            p == source_row(pxsrc@, xs as int, npix as int),
            body == encoding(p),
            room == capacity(old(lldst)@.len() as int),
            i <= npix,
            0 < hi,
            at == HEADER_LEN + done.len(),
            at <= room,
            lldst@ == overwrite(old(lldst)@, HEADER_LEN as int, done),
            done + encode_from(p, i as int, hi as int) == body,
            representable(p) == (fits && fits_from(p, i as int, hi as int)),
        decreases npix - i,
    {
        let first: i32 = clamp_pixel(pxsrc[base + i]);
        let j: usize = if first == 0 {
            run_end(pxsrc, base, npix, i)
        } else {
            i
        };
        let nz: usize = j - i;
        if j == npix {
            let ghost ws: Seq<i16> = zero_words(nz as int, false);
            proof {
                lemma_fitting_twice(old(lldst)@, HEADER_LEN as int, done, ws, room);
            }
            at = match put_zero_run(lldst, at, nz, false) {
                Ok(x) => x,
                Err(e) => {
                    return Err(e);
                },
            };
            proof {
                done = done + ws;
            }
            i = j;
        } else {
            let pv: i32 = clamp_pixel(pxsrc[base + j]);
            let e: usize = run_end(pxsrc, base, npix, j);
            let np: usize = e - j;
            let dv: i32 = pv - hi;
            let ghost ws: Seq<i16> = segment_words(hi as int, nz as int, pv as int, np as int);
            let ghost more: Seq<i16> = encode_from(p, e as int, pv as int);
            proof {
                lemma_fitting_twice(old(lldst)@, HEADER_LEN as int, done, ws, room);
                lemma_fitting_twice(old(lldst)@, HEADER_LEN as int, done + ws, more, room);
            }
            if (dv > DATA_MAX || dv < -DATA_MAX) && pv > HIGH_MAX {
                fits = false;
            }
            at = match put_segment(lldst, at, hi, nz, pv, np) {
                Ok(x) => x,
                Err(e) => {
                    return Err(e);
                },
            };
            proof {
                done = done + ws;
            }
            hi = pv;
            i = e;
        }
    }
    if !fits {
        return Err(PlioError::ValueOutOfRange);
    }
    let last: usize = at - 1;
    lldst[0] = 0;
    lldst[1] = HEADER_LEN as i16;
    lldst[2] = VERSION;
    lldst[3] = (last % 32768) as i16;
    lldst[4] = (last / 32768) as i16;
    lldst[5] = 0;
    lldst[6] = 0;
    assert(lldst@ =~= overwrite(old(lldst)@, 0, header_words(last as int) + body));
    Ok(last)
}

} // verus!
