//! Word layout of a line list: the header fields, the packing of an
//! instruction word into an opcode and a data field, and the error type.

use vstd::prelude::*;

verus! {

/// Number of header words in the current layout; the instructions follow.
pub const HEADER_LEN: usize = 7;

/// Index of the first instruction word in the legacy layout.
pub const LEGACY_FIRST: usize = 3;

/// Version tag written into word 2 of the current layout. It is negative,
/// which tells the current layout from the legacy one, whose word 2 holds a
/// positive length.
pub const VERSION: i16 = -100;

/// Largest value of the 12-bit data field of an instruction word.
pub const DATA_MAX: i32 = 4095;

/// Largest count carried by one zero-run word written by the encoder. One
/// less than `DATA_MAX`, so that the word can still be turned into a
/// zero-run-plus-one-pixel word, whose count is one higher.
pub const ZERO_RUN_MAX: i32 = 4094;

/// Largest high value that a two-word set-high instruction can carry:
/// 12 bits in the first word and a nonnegative signed 16-bit second word.
pub const HIGH_MAX: i32 = 134217727;

/// Largest index of a last word that the two 15-bit length fields of the
/// header can record.
pub const LAST_MAX: usize = 1073741823;

/// `data` zero pixels.
pub const OP_ZERO_RUN: u8 = 0;

/// Sets the high value from this word's data and the whole next word.
pub const OP_SET_HIGH: u8 = 1;

/// Raises the high value by `data`.
pub const OP_INC_HIGH: u8 = 2;

/// Lowers the high value by `data`.
pub const OP_DEC_HIGH: u8 = 3;

/// `data` pixels at the high value.
pub const OP_HIGH_RUN: u8 = 4;

/// `data - 1` zero pixels, then one pixel at the high value.
pub const OP_ZERO_RUN_HIGH: u8 = 5;

/// Raises the high value by `data`, then one pixel at the high value.
pub const OP_INC_STORE: u8 = 6;

/// Lowers the high value by `data`, then one pixel at the high value.
pub const OP_DEC_STORE: u8 = 7;

/// Why an encode or a decode was refused.
#[derive(Clone, Copy, Debug, PartialEq, Eq, Structural)]
pub enum PlioError {
    /// The line list does not fit the destination, or is longer than the
    /// header's length fields can record.
    CapacityExceeded,
    /// A pixel needs a set-high instruction and is above `HIGH_MAX`.
    ValueOutOfRange,
    /// The header or an instruction of the line list is not valid.
    MalformedLineList,
}

/// The top four bits of a word, read as an unsigned 16-bit value.
pub open spec fn opcode(w: i16) -> int {
    if w < 0 {
        (w + 65536) / 4096
    } else {
        w / 4096
    }
}

/// The bottom twelve bits of a word.
pub open spec fn data(w: i16) -> int {
    (w as int) % 4096
}

/// The word with opcode `op` and data field `d`.
pub open spec fn word(op: int, d: int) -> i16 {
    (op * 4096 + d) as i16
}

/// Opcode and data field of a word built from an opcode below 8 and a data
/// field of 12 bits.
pub proof fn lemma_word_parts(op: int, d: int)
    requires
        0 <= op < 8,
        0 <= d <= 4095,
    ensures
        word(op, d) == op * 4096 + d,
        word(op, d) >= 0,
        opcode(word(op, d)) == op,
        data(word(op, d)) == d,
{
}

/// Packs the opcode `op` and the data field `d` into a word.
pub fn make_word(op: u8, d: i32) -> (w: i16)
    requires
        op < 8,
        0 <= d <= DATA_MAX,
    ensures
        w == word(op as int, d as int),
        w >= 0,
        opcode(w) == op,
        data(w) == d,
{
    (op as i32 * 4096 + d) as i16
}

/// The opcode of `w`, between 0 and 15.
pub fn opcode_of(w: i16) -> (op: u8)
    ensures
        op == opcode(w),
        0 <= op < 16,
        w >= 0 <==> op < 8,
{
    let u: i32 = if w < 0 {
        w as i32 + 65536
    } else {
        w as i32
    };
    (u / 4096) as u8
}

/// The data field of `w`, between 0 and 4095.
pub fn data_of(w: i16) -> (d: i32)
    ensures
        d == data(w),
        0 <= d <= 4095,
{
    let u: i32 = if w < 0 {
        w as i32 + 65536
    } else {
        w as i32
    };
    u % 4096
}

/// Header fields of a line list, in one of its two layouts.
#[derive(Clone, Copy, Debug, PartialEq, Eq, Structural)]
pub enum Header {
    /// Three words: reference count, buffer length, index of the last word.
    Legacy { refs: i16, buffer_len: i32, last: i32 },
    /// Seven words: reference count, header length, version, and the index
    /// of the last word and the buffer length, each put together from a low
    /// and a high word.
    Current { refs: i16, header_len: i16, version: i16, last: i32, buffer_len: i32 },
}

/// Whether `ll` is long enough to hold the header that its word 2 announces.
pub open spec fn header_readable(ll: Seq<i16>) -> bool {
    ll.len() >= LEGACY_FIRST && (ll[2] > 0 || ll.len() >= HEADER_LEN)
}

/// The value of a low and a high word taken together: `lo + (hi << 15)`.
pub open spec fn joined(lo: i16, hi: i16) -> int {
    lo + hi * 32768
}

/// The header that the first words of `ll` hold. Word 2 decides the layout:
/// positive is legacy, anything else is current.
pub open spec fn header_of(ll: Seq<i16>) -> Header {
    if ll[2] > 0 {
        Header::Legacy { refs: ll[0], buffer_len: ll[1] as i32, last: ll[2] as i32 }
    } else {
        Header::Current {
            refs: ll[0],
            header_len: ll[1],
            version: ll[2],
            last: joined(ll[3], ll[4]) as i32,
            buffer_len: joined(ll[5], ll[6]) as i32,
        }
    }
}

impl Header {
    /// Index of the first instruction word.
    pub open spec fn first(self) -> int {
        match self {
            Header::Legacy { .. } => LEGACY_FIRST as int,
            Header::Current { header_len, .. } => header_len as int,
        }
    }

    /// Index of the last instruction word; the recorded length of the list.
    pub open spec fn last(self) -> int {
        match self {
            Header::Legacy { last, .. } => last as int,
            Header::Current { last, .. } => last as int,
        }
    }

    /// Smallest index at which instructions may start in this layout.
    pub open spec fn min_first(self) -> int {
        match self {
            Header::Legacy { .. } => LEGACY_FIRST as int,
            Header::Current { .. } => HEADER_LEN as int,
        }
    }

    /// Reads the header of `ll`, or nothing where `ll` is too short for it.
    pub fn parse(ll: &[i16]) -> (res: Option<Header>)
        ensures
            res is Some <==> header_readable(ll@),
            res is Some ==> res->0 == header_of(ll@),
    {
        if ll.len() < LEGACY_FIRST {
            return None;
        }
        if ll[2] > 0 {
            return Some(
                Header::Legacy { refs: ll[0], buffer_len: ll[1] as i32, last: ll[2] as i32 },
            );
        }
        if ll.len() < HEADER_LEN {
            return None;
        }
        let last: i32 = ll[3] as i32 + ll[4] as i32 * 32768;
        let buffer_len: i32 = ll[5] as i32 + ll[6] as i32 * 32768;
        Some(Header::Current { refs: ll[0], header_len: ll[1], version: ll[2], last, buffer_len })
    }

    /// Index of the first instruction word.
    pub fn first_index(&self) -> (r: i32)
        ensures
            r == self.first(),
    {
        match self {
            Header::Legacy { .. } => LEGACY_FIRST as i32,
            Header::Current { header_len, .. } => *header_len as i32,
        }
    }

    /// Smallest index at which instructions may start in this layout.
    pub fn min_first_index(&self) -> (r: i32)
        ensures
            r == self.min_first(),
    {
        match self {
            Header::Legacy { .. } => LEGACY_FIRST as i32,
            Header::Current { .. } => HEADER_LEN as i32,
        }
    }

    /// Index of the last instruction word.
    pub fn last_index(&self) -> (r: i32)
        ensures
            r == self.last(),
    {
        match self {
            Header::Legacy { last, .. } => *last,
            Header::Current { last, .. } => *last,
        }
    }
}

/// The seven header words that the encoder writes for a list whose last
/// word has index `last`.
pub open spec fn header_words(last: int) -> Seq<i16> {
    seq![0i16, HEADER_LEN as i16, VERSION, (last % 32768) as i16, (last / 32768) as i16, 0i16, 0i16]
}

} // verus!
