//! What an instruction stream means: the row of pixels it expands to, and
//! when it is well formed.

use vstd::prelude::*;
use crate::layout::{
    data, header_of, header_readable, opcode, Header, OP_DEC_HIGH, OP_DEC_STORE, OP_HIGH_RUN,
    OP_INC_HIGH, OP_INC_STORE, OP_SET_HIGH, OP_ZERO_RUN, OP_ZERO_RUN_HIGH,
};

verus! {

/// `n` copies of `v`; empty where `n` is not positive.
pub open spec fn repeat(v: int, n: int) -> Seq<int> {
    Seq::new(
        if n > 0 {
            n as nat
        } else {
            0
        },
        |i: int| v,
    )
}

/// Number of words of the instruction at the head of `s`.
pub open spec fn step_len(s: Seq<i16>) -> int {
    if opcode(s[0]) == OP_SET_HIGH {
        2
    } else {
        1
    }
}

/// The high value after the instruction at the head of `s`, where it was
/// `hi` before.
pub open spec fn next_high(s: Seq<i16>, hi: int) -> int {
    let op: int = opcode(s[0]);
    let d: int = data(s[0]);
    if op == OP_SET_HIGH {
        s[1] * 4096 + d
    } else if op == OP_INC_HIGH || op == OP_INC_STORE {
        hi + d
    } else if op == OP_DEC_HIGH || op == OP_DEC_STORE {
        hi - d
    } else {
        hi
    }
}

/// The pixels that the instruction at the head of `s` adds to the row,
/// where the high value was `hi` before it.
pub open spec fn step_pixels(s: Seq<i16>, hi: int) -> Seq<int> {
    let op: int = opcode(s[0]);
    let d: int = data(s[0]);
    if op == OP_ZERO_RUN {
        repeat(0, d)
    } else if op == OP_HIGH_RUN {
        repeat(hi, d)
    } else if op == OP_ZERO_RUN_HIGH {
        if d > 0 {
            repeat(0, d - 1).push(hi)
        } else {
            Seq::empty()
        }
    } else if op == OP_INC_STORE {
        seq![hi + d]
    } else if op == OP_DEC_STORE {
        seq![hi - d]
    } else {
        Seq::empty()
    }
}

/// Whether the instruction at the head of `s` is valid: its opcode is one of
/// the eight, a set-high has its second word, and the high value stays a
/// 32-bit signed value.
pub open spec fn step_ok(s: Seq<i16>, hi: int) -> bool {
    &&& s[0] >= 0
    &&& step_len(s) <= s.len()
    &&& i32::MIN <= next_high(s, hi) <= i32::MAX
}

/// Whether every instruction of `s` is valid, starting from high value `hi`.
pub open spec fn well_formed(s: Seq<i16>, hi: int) -> bool
    decreases s.len(),
{
    if s.len() == 0 {
        true
    } else if !step_ok(s, hi) {
        false
    } else {
        well_formed(s.skip(step_len(s)), next_high(s, hi))
    }
}

/// The row of pixels that `s` expands to, starting from high value `hi`.
/// Expansion stops at an instruction that is cut off by the end of `s`.
pub open spec fn expand(s: Seq<i16>, hi: int) -> Seq<int>
    decreases s.len(),
{
    if s.len() == 0 || step_len(s) > s.len() {
        Seq::empty()
    } else {
        step_pixels(s, hi) + expand(s.skip(step_len(s)), next_high(s, hi))
    }
}

/// Whether the header of `ll` can be read and, where it records a positive
/// length, places the instructions behind the header and inside `ll`.
pub open spec fn header_ok(ll: Seq<i16>) -> bool {
    let h: Header = header_of(ll);
    &&& header_readable(ll)
    &&& h.last() > 0 ==> h.min_first() <= h.first() <= h.last() + 1 <= ll.len()
}

/// The instruction words of `ll`: from the first to the last index that its
/// header gives.
pub open spec fn list_body(ll: Seq<i16>) -> Seq<i16> {
    let h: Header = header_of(ll);
    ll.subrange(h.first(), h.last() + 1)
}

/// Whether `ll` is a valid line list: its header is, and so is every one of
/// its instructions. A list of nonpositive length needs a readable header
/// only.
pub open spec fn line_list_ok(ll: Seq<i16>) -> bool {
    &&& header_ok(ll)
    &&& header_of(ll).last() > 0 ==> well_formed(list_body(ll), 1)
}

/// The whole row that `ll` stands for. The high value starts at 1.
pub open spec fn list_row(ll: Seq<i16>) -> Seq<int> {
    expand(list_body(ll), 1)
}

/// Index in the row of the pixel that a decode starting at `xs` puts first.
/// Positions in the row count from 1, and a start of 0 or less begins at
/// the first pixel like a start of 1.
pub open spec fn window_start(xs: int) -> int {
    if xs > 1 {
        xs - 1
    } else {
        0
    }
}

/// Pixel `i` of a decode of `npix` pixels from `row`, starting at `xs`: the
/// pixel of the row at that place, and 0 behind the end of the row or
/// behind position `xs + npix`.
pub open spec fn window_pixel(row: Seq<int>, xs: int, npix: int, i: int) -> int {
    let k: int = window_start(xs) + i;
    if k < xs + npix && k < row.len() {
        row[k]
    } else {
        0
    }
}

} // verus!
