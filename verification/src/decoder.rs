//! Decoding: from a line list to the pixels of a window of its row.

use vstd::prelude::*;
use crate::layout::{
    data_of, header_of, opcode_of, Header, PlioError, OP_DEC_HIGH, OP_DEC_STORE, OP_HIGH_RUN,
    OP_INC_HIGH, OP_INC_STORE, OP_SET_HIGH, OP_ZERO_RUN_HIGH,
};
use crate::stream::{
    expand, line_list_ok, list_row, step_pixels, well_formed, window_pixel, window_start,
};

verus! {

/// Stores `v` at every index of `buf` from `from` up to, not including, `to`.
pub fn fill(buf: &mut [i32], from: usize, to: usize, v: i32)
    requires
        from <= to <= old(buf)@.len(),
    ensures
        final(buf)@.len() == old(buf)@.len(),
        forall|k: int|
            0 <= k < old(buf)@.len() ==> final(buf)@[k] == (if from <= k < to {
                v
            } else {
                old(buf)@[k]
            }),
{
    let mut k: usize = from;
    while k < to
        invariant
            from <= k <= to <= buf@.len(),
            buf@.len() == old(buf)@.len(),
            forall|j: int|
                0 <= j < buf@.len() ==> buf@[j] == (if from <= j < k {
                    v
                } else {
                    old(buf)@[j]
                }),
        decreases to - k,
    {
        buf[k] = v;
        k += 1;
    }
}

/// Whether the instructions of `ll` from index `first` to index `last` are
/// all valid.
pub fn check_stream(ll: &[i16], first: usize, last: usize) -> (ok: bool)
    requires
        first <= last + 1 <= ll@.len(),
    ensures
        ok == well_formed(ll@.subrange(first as int, last + 1), 1),
{
    let mut ip: usize = first;
    let mut hi: i32 = 1;
    while ip <= last
        invariant
            first <= ip <= last + 1 <= ll@.len(),
            well_formed(ll@.subrange(first as int, last + 1), 1) == well_formed(
                ll@.subrange(ip as int, last + 1),
                hi as int,
            ),
        decreases last + 1 - ip,
    {
        let ghost s: Seq<i16> = ll@.subrange(ip as int, last + 1);
        let w: i16 = ll[ip];
        if w < 0 {
            return false;
        }
        let op: u8 = opcode_of(w);
        let d: i32 = data_of(w);
        if op == OP_SET_HIGH {
            if ip == last {
                return false;
            }
            let next: i16 = ll[ip + 1];
            hi = next as i32 * 4096 + d;
            assert(s.skip(2) =~= ll@.subrange(ip + 2, last + 1));
            ip += 2;
        } else {
            let wide: i64 = if op == OP_INC_HIGH || op == OP_INC_STORE {
                hi as i64 + d as i64
            } else if op == OP_DEC_HIGH || op == OP_DEC_STORE {
                hi as i64 - d as i64
            } else {
                hi as i64
            };
            if wide < i32::MIN as i64 || wide > i32::MAX as i64 {
                return false;
            }
            hi = wide as i32;
            assert(s.skip(1) =~= ll@.subrange(ip + 1, last + 1));
            ip += 1;
        }
    }
    true
}

/// Writes into the first `npix` places of `px_dst` the pixels of the row of
/// the instructions `first..=last` of `ll`, as a decode starting at `xs`
/// sees them. Only the instructions up to the end of the window are read.
pub fn decode_window(
    ll: &[i16],
    first: usize,
    last: usize,
    xs: i32,
    px_dst: &mut [i32],
    npix: usize,
)
    requires
        first <= last + 1 <= ll@.len(),
        well_formed(ll@.subrange(first as int, last + 1), 1),
        npix <= old(px_dst)@.len(),
    ensures
        final(px_dst)@.len() == old(px_dst)@.len(),
        forall|i: int|
            0 <= i < npix ==> final(px_dst)@[i] == window_pixel(
                expand(ll@.subrange(first as int, last + 1), 1),
                xs as int,
                npix as int,
                i,
            ),
        forall|i: int| npix <= i < old(px_dst)@.len() ==> final(px_dst)@[i] == old(px_dst)@[i],
{
    let ghost row: Seq<int> = expand(ll@.subrange(first as int, last + 1), 1);
    let start: i128 = if xs > 1 {
        xs as i128 - 1
    } else {
        0
    };
    let end: i128 = if xs >= 1 {
        start + npix as i128
    } else {
        xs as i128 + npix as i128
    };
    let mut ip: usize = first;
    let mut pos: i128 = 0;
    let mut hi: i32 = 1;
    let ghost mut done: Seq<int> = Seq::empty();
    while ip <= last && pos < end
        invariant
            first <= ip <= last + 1 <= ll@.len(),
            start == window_start(xs as int),
            end <= start + npix,
            end <= xs + npix,
            npix <= px_dst@.len(),
            0 <= pos,
            done.len() == pos,
            row == done + expand(ll@.subrange(ip as int, last + 1), hi as int),
            well_formed(ll@.subrange(ip as int, last + 1), hi as int),
            px_dst@.len() == old(px_dst)@.len(),
            forall|i: int|
                0 <= i < npix && start + i < pos && start + i < end ==> px_dst@[i] == done[start
                    + i],
            forall|i: int| npix <= i < px_dst@.len() ==> px_dst@[i] == old(px_dst)@[i],
        decreases last + 1 - ip,
    {
        let ghost s: Seq<i16> = ll@.subrange(ip as int, last + 1);
        let w: i16 = ll[ip];
        let op: u8 = opcode_of(w);
        let d: i32 = data_of(w);
        let ghost out: Seq<int> = step_pixels(s, hi as int);
        if op == OP_SET_HIGH {
            let next: i16 = ll[ip + 1];
            hi = next as i32 * 4096 + d;
            assert(s.skip(2) =~= ll@.subrange(ip + 2, last + 1));
            ip += 2;
        } else if op == OP_INC_HIGH || op == OP_DEC_HIGH {
            if op == OP_INC_HIGH {
                hi = hi + d;
            } else {
                hi = hi - d;
            }
            assert(s.skip(1) =~= ll@.subrange(ip + 1, last + 1));
            ip += 1;
        } else if op == OP_INC_STORE || op == OP_DEC_STORE {
            if op == OP_INC_STORE {
                hi = hi + d;
            } else {
                hi = hi - d;
            }
            if start <= pos {
                px_dst[(pos - start) as usize] = hi;
            }
            pos = pos + 1;
            assert(s.skip(1) =~= ll@.subrange(ip + 1, last + 1));
            ip += 1;
        } else {
            let stop: i128 = pos + d as i128;
            let lo: i128 = if pos > start {
                pos
            } else {
                start
            };
            let up: i128 = if stop < end {
                stop
            } else {
                end
            };
            if lo < up {
                let v: i32 = if op == OP_HIGH_RUN {
                    hi
                } else {
                    0
                };
                fill(px_dst, (lo - start) as usize, (up - start) as usize, v);
                if op == OP_ZERO_RUN_HIGH && up == stop {
                    px_dst[(stop - 1 - start) as usize] = hi;
                }
            }
            pos = stop;
            assert(s.skip(1) =~= ll@.subrange(ip + 1, last + 1));
            ip += 1;
        }
        proof {
            done = done + out;
        }
    }
    let written: i128 = if pos < end {
        pos
    } else {
        end
    };
    let from: usize = if written > start {
        (written - start) as usize
    } else {
        0
    };
    fill(px_dst, from, npix, 0);
}

/// Decodes the line list `ll_src` into pixels: fills the first `npix`
/// places of `px_dst` with the pixels of the row of `ll_src` that a window
/// starting at `xs` shows, and with 0 behind the end of the row.
///
/// Returns the number of pixels written: `npix`, or 0, with `px_dst` left as
/// it was, where `npix` is 0 or the header records a length that is not
/// positive. A list that is not valid is refused and `px_dst` left as it
/// was.
pub fn pl_l2pi(ll_src: &[i16], xs: i32, px_dst: &mut [i32], npix: usize) -> (res: Result<
    usize,
    PlioError,
>)
    requires
        npix <= old(px_dst)@.len(),
    ensures
        final(px_dst)@.len() == old(px_dst)@.len(),
        npix == 0 ==> res == Ok::<usize, PlioError>(0) && final(px_dst)@ == old(px_dst)@,
        npix > 0 && !line_list_ok(ll_src@) ==> {
            &&& res == Err::<usize, PlioError>(PlioError::MalformedLineList)
            &&& final(px_dst)@ == old(px_dst)@
        },
        npix > 0 && line_list_ok(ll_src@) && header_of(ll_src@).last() <= 0 ==> {
            &&& res == Ok::<usize, PlioError>(0)
            &&& final(px_dst)@ == old(px_dst)@
        },
        npix > 0 && line_list_ok(ll_src@) && header_of(ll_src@).last() > 0 ==> {
            &&& res == Ok::<usize, PlioError>(npix)
            &&& forall|i: int|
                0 <= i < npix ==> final(px_dst)@[i] == window_pixel(
                    list_row(ll_src@),
                    xs as int,
                    npix as int,
                    i,
                )
            &&& forall|i: int|
                npix <= i < old(px_dst)@.len() ==> final(px_dst)@[i] == old(px_dst)@[i]
        },
{
    if npix == 0 {
        return Ok(0);
    }
    let header: Header = match Header::parse(ll_src) {
        Some(h) => h,
        None => {
            return Err(PlioError::MalformedLineList);
        },
    };
    let last: i32 = header.last_index();
    if last <= 0 {
        return Ok(0);
    }
    let first: i32 = header.first_index();
    let least: i32 = header.min_first_index();
    if first < least || first > last + 1 || last as usize >= ll_src.len() {
        return Err(PlioError::MalformedLineList);
    }
    if !check_stream(ll_src, first as usize, last as usize) {
        return Err(PlioError::MalformedLineList);
    }
    decode_window(ll_src, first as usize, last as usize, xs, px_dst, npix);
    Ok(npix)
}

} // verus!
