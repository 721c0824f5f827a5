use vstd::prelude::*;
use vstd::utf8::{
    decode_utf8, encode_scalar, encode_utf8, encode_utf8_decode_utf8, encode_utf8_valid_utf8,
    valid_utf8,
};

use crate::ops::p_op;
use crate::ops::PickleOp;

verus! {

/// Why a buffer could not be decoded; `pos` is the offset of the opcode byte
/// of the instruction that failed.
#[derive(Debug, Clone, Copy, PartialEq, Eq, Structural)]
pub enum DecodeError {
    /// The byte at `pos` is no opcode.
    BadOpcode { pos: usize, tag: u8 },
    /// The input ends before the instruction does (also: the input is empty).
    Truncated { pos: usize },
    /// A payload that must be UTF-8 text is not.
    BadUtf8 { pos: usize },
}

/// How the argument of an instruction is encoded.
pub enum ArgKind {
    /// No argument.
    NoArg,
    /// A little-endian integer of this many bytes.
    Fixed(u8),
    /// A little-endian length of this many bytes, then that many bytes.
    Counted(u8),
    /// As `Counted`, where the bytes must be UTF-8 text.
    CountedText(u8),
    /// UTF-8 text up to a line feed.
    Line,
    /// Two such lines.
    TwoLines,
}

/// Two bytes from `p`, little-endian, unsigned.
pub open spec fn le_u16(b: Seq<u8>, p: int) -> int {
    b[p] + 256 * b[p + 1]
}

/// Two bytes from `p`, little-endian, two's complement.
pub open spec fn le_i16(b: Seq<u8>, p: int) -> int {
    if le_u16(b, p) < 0x8000 {
        le_u16(b, p)
    } else {
        le_u16(b, p) - 0x1_0000
    }
}

/// Four bytes from `p`, little-endian, unsigned.
pub open spec fn le_u32(b: Seq<u8>, p: int) -> int {
    le_u16(b, p) + 0x1_0000 * le_u16(b, p + 2)
}

/// Four bytes from `p`, little-endian, two's complement.
pub open spec fn le_i32(b: Seq<u8>, p: int) -> int {
    if le_u32(b, p) < 0x8000_0000 {
        le_u32(b, p)
    } else {
        le_u32(b, p) - 0x1_0000_0000
    }
}

/// Eight bytes from `p`, little-endian, unsigned.
pub open spec fn le_u64(b: Seq<u8>, p: int) -> int {
    le_u32(b, p) + 0x1_0000_0000 * le_u32(b, p + 4)
}

/// A length field of `w` (1, 4 or 8) bytes from `p`.
pub open spec fn le_len(b: Seq<u8>, p: int, w: int) -> int {
    if w == 1 {
        b[p] as int
    } else if w == 4 {
        le_u32(b, p)
    } else {
        le_u64(b, p)
    }
}

/// Whether a length field of `w` bytes at `p` and the payload it counts
/// both lie within `b`.
pub open spec fn counted_fits(b: Seq<u8>, p: int, w: int) -> bool {
    p + w <= b.len() && p + w + le_len(b, p, w) <= b.len()
}

/// The payload that a length field of `w` bytes at `p` counts.
pub open spec fn counted_payload(b: Seq<u8>, p: int, w: int) -> Seq<u8> {
    b.subrange(p + w, p + w + le_len(b, p, w))
}

/// Whether `d` is the payload counted at `p` and `end` is where it stops.
pub open spec fn counted(b: Seq<u8>, p: int, w: int, d: Seq<u8>, end: int) -> bool {
    counted_fits(b, p, w) && end == p + w + le_len(b, p, w) && d == counted_payload(b, p, w)
}

/// Whether `s` is the text of the payload counted at `p` and `end` is where
/// it stops.
pub open spec fn counted_text(b: Seq<u8>, p: int, w: int, s: &str, end: int) -> bool {
    counted_fits(b, p, w) && end == p + w + le_len(b, p, w) && s@ == decode_utf8(
        counted_payload(b, p, w),
    )
}

/// Whether `j` is the first line feed at or after `p`.
pub open spec fn newline_at(b: Seq<u8>, p: int, j: int) -> bool {
    &&& 0 <= p <= j < b.len()
    &&& b[j] == 0x0a
    &&& forall|k: int| p <= k < j ==> b[k] != 0x0a
}

/// Whether a line feed follows `p`.
pub open spec fn has_line(b: Seq<u8>, p: int) -> bool {
    exists|j: int| newline_at(b, p, j)
}

/// The first line feed at or after `p`.
pub open spec fn line_end(b: Seq<u8>, p: int) -> int {
    choose|j: int| newline_at(b, p, j)
}

/// Whether `s` is the text of the line from `p` and `end` follows its line
/// feed.
pub open spec fn line_text(b: Seq<u8>, p: int, s: &str, end: int) -> bool {
    has_line(b, p) && end == line_end(b, p) + 1 && s@ == decode_utf8(b.subrange(p, line_end(b, p)))
}

/// Whether `m` and `c` are the texts of two lines from `p`.
pub open spec fn two_lines(b: Seq<u8>, p: int, m: &str, c: &str, end: int) -> bool {
    has_line(b, p) && line_text(b, p, m, line_end(b, p) + 1) && line_text(
        b,
        line_end(b, p) + 1,
        c,
        end,
    )
}

/// Why the line from `p` cannot be read, for an instruction at `at`.
pub open spec fn line_error(b: Seq<u8>, p: int, at: int) -> Option<DecodeError> {
    if !has_line(b, p) {
        Some(DecodeError::Truncated { pos: at as usize })
    } else if !valid_utf8(b.subrange(p, line_end(b, p))) {
        Some(DecodeError::BadUtf8 { pos: at as usize })
    } else {
        None
    }
}

/// Why the instruction at `pos` cannot be decoded; `None` when it can.
pub open spec fn decode_error(b: Seq<u8>, pos: int) -> Option<DecodeError> {
    if pos < 0 || pos >= b.len() {
        Some(DecodeError::Truncated { pos: pos as usize })
    } else {
        let p = pos + 1;
        match arg_kind(b[pos]) {
            None => Some(DecodeError::BadOpcode { pos: pos as usize, tag: b[pos] }),
            Some(ArgKind::NoArg) => None,
            Some(ArgKind::Fixed(w)) => if p + w <= b.len() {
                None
            } else {
                Some(DecodeError::Truncated { pos: pos as usize })
            },
            Some(ArgKind::Counted(w)) => if counted_fits(b, p, w as int) {
                None
            } else {
                Some(DecodeError::Truncated { pos: pos as usize })
            },
            Some(ArgKind::CountedText(w)) => if !counted_fits(b, p, w as int) {
                Some(DecodeError::Truncated { pos: pos as usize })
            } else if !valid_utf8(counted_payload(b, p, w as int)) {
                Some(DecodeError::BadUtf8 { pos: pos as usize })
            } else {
                None
            },
            Some(ArgKind::Line) => line_error(b, p, pos),
            Some(ArgKind::TwoLines) => match line_error(b, p, pos) {
                Some(e) => Some(e),
                None => line_error(b, line_end(b, p) + 1, pos),
            },
        }
    }
}

/// Where the instruction at `pos` ends, when it can be decoded.
pub open spec fn end_of(b: Seq<u8>, pos: int) -> int {
    let p = pos + 1;
    match arg_kind(b[pos]) {
        Some(ArgKind::Fixed(w)) => p + w,
        Some(ArgKind::Counted(w)) => p + w + le_len(b, p, w as int),
        Some(ArgKind::CountedText(w)) => p + w + le_len(b, p, w as int),
        Some(ArgKind::Line) => line_end(b, p) + 1,
        Some(ArgKind::TwoLines) => line_end(b, line_end(b, p) + 1) + 1,
        _ => p,
    }
}

/// Whether `op` is the instruction that the bytes from `pos` to `end` encode.
pub open spec fn decodes(b: Seq<u8>, pos: int, op: PickleOp, end: int) -> bool {
    0 <= pos < b.len() && b[pos] == tag_of(op) && args_match(b, pos + 1, op, end)
}

/// The offsets at which the instructions of the stream from `pos` start, up
/// to its end or to the first instruction that cannot be decoded.
pub open spec fn op_starts(b: Seq<u8>, pos: int) -> Seq<int>
    decreases b.len() - pos,
{
    if pos < 0 || pos >= b.len() || decode_error(b, pos) is Some || end_of(b, pos) <= pos {
        Seq::empty()
    } else {
        seq![pos] + op_starts(b, end_of(b, pos))
    }
}

/// The first error in the stream of instructions from `pos`; `None` when
/// the stream decodes to its end.
pub open spec fn stream_error(b: Seq<u8>, pos: int) -> Option<DecodeError>
    decreases b.len() - pos,
{
    if pos < 0 || pos >= b.len() {
        None
    } else {
        match decode_error(b, pos) {
            Some(e) => Some(e),
            None => if end_of(b, pos) <= pos {
                None
            } else {
                stream_error(b, end_of(b, pos))
            },
        }
    }
}

/// The opcode byte of an instruction.
pub open spec fn tag_of(op: PickleOp) -> u8 {
    match op {
        PickleOp::MARK => p_op::MARK,
        PickleOp::STOP => p_op::STOP,
        PickleOp::POP => p_op::POP,
        PickleOp::POP_MARK => p_op::POP_MARK,
        PickleOp::DUP => p_op::DUP,
        PickleOp::NONE => p_op::NONE,
        PickleOp::BINPERSID => p_op::BINPERSID,
        PickleOp::REDUCE => p_op::REDUCE,
        PickleOp::APPEND => p_op::APPEND,
        PickleOp::BUILD => p_op::BUILD,
        PickleOp::DICT => p_op::DICT,
        PickleOp::EMPTY_DICT => p_op::EMPTY_DICT,
        PickleOp::APPENDS => p_op::APPENDS,
        PickleOp::LIST => p_op::LIST,
        PickleOp::EMPTY_LIST => p_op::EMPTY_LIST,
        PickleOp::OBJ => p_op::OBJ,
        PickleOp::SETITEM => p_op::SETITEM,
        PickleOp::TUPLE => p_op::TUPLE,
        PickleOp::EMPTY_TUPLE => p_op::EMPTY_TUPLE,
        PickleOp::SETITEMS => p_op::SETITEMS,
        PickleOp::NEWOBJ => p_op::NEWOBJ,
        PickleOp::TUPLE1 => p_op::TUPLE1,
        PickleOp::TUPLE2 => p_op::TUPLE2,
        PickleOp::TUPLE3 => p_op::TUPLE3,
        PickleOp::NEWTRUE => p_op::NEWTRUE,
        PickleOp::NEWFALSE => p_op::NEWFALSE,
        PickleOp::EMPTY_SET => p_op::EMPTY_SET,
        PickleOp::ADDITEMS => p_op::ADDITEMS,
        PickleOp::FROZENSET => p_op::FROZENSET,
        PickleOp::NEWOBJ_EX => p_op::NEWOBJ_EX,
        PickleOp::STACK_GLOBAL => p_op::STACK_GLOBAL,
        PickleOp::MEMOIZE => p_op::MEMOIZE,
        PickleOp::NEXT_BUFFER => p_op::NEXT_BUFFER,
        PickleOp::READONLY_BUFFER => p_op::READONLY_BUFFER,
        PickleOp::FLOAT(..) => p_op::FLOAT,
        PickleOp::INT(..) => p_op::INT,
        PickleOp::LONG(..) => p_op::LONG,
        PickleOp::PERSID(..) => p_op::PERSID,
        PickleOp::STRING(..) => p_op::STRING,
        PickleOp::UNICODE(..) => p_op::UNICODE,
        PickleOp::GET(..) => p_op::GET,
        PickleOp::PUT(..) => p_op::PUT,
        PickleOp::GLOBAL(..) => p_op::GLOBAL,
        PickleOp::INST(..) => p_op::INST,
        PickleOp::BININT1(..) => p_op::BININT1,
        PickleOp::BINGET(..) => p_op::BINGET,
        PickleOp::BINPUT(..) => p_op::BINPUT,
        PickleOp::PROTO(..) => p_op::PROTO,
        PickleOp::EXT1(..) => p_op::EXT1,
        PickleOp::BININT2(..) => p_op::BININT2,
        PickleOp::EXT2(..) => p_op::EXT2,
        PickleOp::BININT(..) => p_op::BININT,
        PickleOp::EXT4(..) => p_op::EXT4,
        PickleOp::LONG_BINGET(..) => p_op::LONG_BINGET,
        PickleOp::LONG_BINPUT(..) => p_op::LONG_BINPUT,
        PickleOp::FRAME(..) => p_op::FRAME,
        PickleOp::BINFLOAT(..) => p_op::BINFLOAT,
        PickleOp::SHORT_BINSTRING(..) => p_op::SHORT_BINSTRING,
        PickleOp::LONG1(..) => p_op::LONG1,
        PickleOp::SHORT_BINBYTES(..) => p_op::SHORT_BINBYTES,
        PickleOp::BINSTRING(..) => p_op::BINSTRING,
        PickleOp::LONG4(..) => p_op::LONG4,
        PickleOp::BINBYTES(..) => p_op::BINBYTES,
        PickleOp::BINBYTES8(..) => p_op::BINBYTES8,
        PickleOp::BYTEARRAY8(..) => p_op::BYTEARRAY8,
        PickleOp::SHORT_BINUNICODE(..) => p_op::SHORT_BINUNICODE,
        PickleOp::BINUNICODE(..) => p_op::BINUNICODE,
        PickleOp::BINUNICODE8(..) => p_op::BINUNICODE8,
    }
}

/// How the argument of the instruction with opcode byte `tag` is encoded;
/// `None` for a byte that is no opcode.
pub open spec fn arg_kind(tag: u8) -> Option<ArgKind> {
    if tag == p_op::MARK || tag == p_op::STOP || tag == p_op::POP || tag == p_op::POP_MARK || tag == p_op::DUP || tag == p_op::NONE || tag == p_op::BINPERSID || tag == p_op::REDUCE || tag == p_op::APPEND || tag == p_op::BUILD || tag == p_op::DICT || tag == p_op::EMPTY_DICT || tag == p_op::APPENDS || tag == p_op::LIST || tag == p_op::EMPTY_LIST || tag == p_op::OBJ || tag == p_op::SETITEM || tag == p_op::TUPLE || tag == p_op::EMPTY_TUPLE || tag == p_op::SETITEMS || tag == p_op::NEWOBJ || tag == p_op::TUPLE1 || tag == p_op::TUPLE2 || tag == p_op::TUPLE3 || tag == p_op::NEWTRUE || tag == p_op::NEWFALSE || tag == p_op::EMPTY_SET || tag == p_op::ADDITEMS || tag == p_op::FROZENSET || tag == p_op::NEWOBJ_EX || tag == p_op::STACK_GLOBAL || tag == p_op::MEMOIZE || tag == p_op::NEXT_BUFFER || tag == p_op::READONLY_BUFFER {
        Some(ArgKind::NoArg)
    } else if tag == p_op::FLOAT || tag == p_op::INT || tag == p_op::LONG || tag == p_op::PERSID || tag == p_op::STRING || tag == p_op::UNICODE || tag == p_op::GET || tag == p_op::PUT {
        Some(ArgKind::Line)
    } else if tag == p_op::GLOBAL || tag == p_op::INST {
        Some(ArgKind::TwoLines)
    } else if tag == p_op::BININT1 || tag == p_op::BINGET || tag == p_op::BINPUT || tag == p_op::PROTO || tag == p_op::EXT1 {
        Some(ArgKind::Fixed(1))
    } else if tag == p_op::BININT2 || tag == p_op::EXT2 {
        Some(ArgKind::Fixed(2))
    } else if tag == p_op::BININT || tag == p_op::EXT4 || tag == p_op::LONG_BINGET || tag == p_op::LONG_BINPUT {
        Some(ArgKind::Fixed(4))
    } else if tag == p_op::FRAME || tag == p_op::BINFLOAT {
        Some(ArgKind::Fixed(8))
    } else if tag == p_op::SHORT_BINSTRING || tag == p_op::LONG1 || tag == p_op::SHORT_BINBYTES {
        Some(ArgKind::Counted(1))
    } else if tag == p_op::BINSTRING || tag == p_op::LONG4 || tag == p_op::BINBYTES {
        Some(ArgKind::Counted(4))
    } else if tag == p_op::BINBYTES8 || tag == p_op::BYTEARRAY8 {
        Some(ArgKind::Counted(8))
    } else if tag == p_op::SHORT_BINUNICODE {
        Some(ArgKind::CountedText(1))
    } else if tag == p_op::BINUNICODE {
        Some(ArgKind::CountedText(4))
    } else if tag == p_op::BINUNICODE8 {
        Some(ArgKind::CountedText(8))
    } else {
        None
    }
}

/// Whether `op`'s argument is what the bytes from `p` encode, ending at `end`.
pub open spec fn args_match(b: Seq<u8>, p: int, op: PickleOp, end: int) -> bool {
    match op {
        PickleOp::FLOAT(s)
        | PickleOp::INT(s)
        | PickleOp::LONG(s)
        | PickleOp::PERSID(s)
        | PickleOp::STRING(s)
        | PickleOp::UNICODE(s)
        | PickleOp::GET(s)
        | PickleOp::PUT(s) => line_text(b, p, s, end),
        PickleOp::GLOBAL(m, c)
        | PickleOp::INST(m, c) => two_lines(b, p, m, c, end),
        PickleOp::BININT1(x)
        | PickleOp::BINGET(x)
        | PickleOp::BINPUT(x)
        | PickleOp::PROTO(x)
        | PickleOp::EXT1(x) => end == p + 1 && x == b[p],
        PickleOp::BININT2(x) => end == p + 2 && x == le_u16(b, p),
        PickleOp::EXT2(x) => end == p + 2 && x == le_i16(b, p),
        PickleOp::BININT(x)
        | PickleOp::EXT4(x) => end == p + 4 && x == le_i32(b, p),
        PickleOp::LONG_BINGET(x)
        | PickleOp::LONG_BINPUT(x) => end == p + 4 && x == le_u32(b, p),
        PickleOp::FRAME(x)
        | PickleOp::BINFLOAT(x) => end == p + 8 && x == le_u64(b, p),
        PickleOp::SHORT_BINSTRING(d)
        | PickleOp::LONG1(d)
        | PickleOp::SHORT_BINBYTES(d) => counted(b, p, 1, d@, end),
        PickleOp::BINSTRING(d)
        | PickleOp::LONG4(d)
        | PickleOp::BINBYTES(d) => counted(b, p, 4, d@, end),
        PickleOp::BINBYTES8(d)
        | PickleOp::BYTEARRAY8(d) => counted(b, p, 8, d@, end),
        PickleOp::SHORT_BINUNICODE(s) => counted_text(b, p, 1, s, end),
        PickleOp::BINUNICODE(s) => counted_text(b, p, 4, s, end),
        PickleOp::BINUNICODE8(s) => counted_text(b, p, 8, s, end),
        _ => end == p,
    }
}

proof fn lemma_newline_unique(b: Seq<u8>, p: int, j: int)
    requires
        newline_at(b, p, j),
    ensures
        has_line(b, p),
        line_end(b, p) == j,
{
    let k = line_end(b, p);
    if k < j {
        assert(b[k] != 0x0a);
    }
    if j < k {
        assert(b[j] != 0x0a);
    }
}

/// Relies on `std::str::from_utf8`: the text of `b` when `b` is valid UTF-8.
#[verifier::external_body]
pub(crate) fn utf8_str<'a>(b: &'a [u8]) -> (r: Option<&'a str>)
    ensures
        r is Some <==> valid_utf8(b@),
        r matches Some(s) ==> s@ == decode_utf8(b@),
{
    match std::str::from_utf8(b) {
        Ok(s) => Some(s),
        Err(_) => None,
    }
}

/// The text of the line that starts at `p`, and the offset after its line
/// feed; `at` is the offset of the instruction that reads it.
fn read_line<'a>(b: &'a [u8], p: usize, at: usize) -> (r: Result<(&'a str, usize), DecodeError>)
    requires
        p <= b@.len(),
    ensures
        match r {
            Ok((s, end)) => line_error(b@, p as int, at as int) is None && line_text(
                b@,
                p as int,
                s,
                end as int,
            ) && p < end <= b@.len(),
            Err(e) => line_error(b@, p as int, at as int) == Some(e),
        },
{
    let mut j: usize = p;
    while j < b.len() && b[j] != 0x0a
        invariant
            p <= j <= b@.len(),
            forall|k: int| p <= k < j ==> b@[k] != 0x0a,
        decreases b@.len() - j,
    {
        j = j + 1;
    }
    if j == b.len() {
        proof {
            if has_line(b@, p as int) {
                let k = line_end(b@, p as int);
                assert(newline_at(b@, p as int, k));
            }
        }
        return Err(DecodeError::Truncated { pos: at });
    }
    proof {
        lemma_newline_unique(b@, p as int, j as int);
    }
    match utf8_str(&b[p..j]) {
        Some(s) => Ok((s, j + 1)),
        None => Err(DecodeError::BadUtf8 { pos: at }),
    }
}

/// The byte at `p`; `at` is the offset of the instruction that reads it.
fn read_u8(b: &[u8], p: usize, at: usize) -> (r: Result<u8, DecodeError>)
    ensures
        r is Ok <==> p + 1 <= b@.len(),
        r matches Ok(x) ==> x == b@[p as int],
        r matches Err(e) ==> e == (DecodeError::Truncated { pos: at }),
{
    if p < b.len() {
        Ok(b[p])
    } else {
        Err(DecodeError::Truncated { pos: at })
    }
}

/// Two bytes from `p`, little-endian, unsigned.
fn read_u16(b: &[u8], p: usize, at: usize) -> (r: Result<u16, DecodeError>)
    ensures
        r is Ok <==> p + 2 <= b@.len(),
        r matches Ok(x) ==> x == le_u16(b@, p as int),
        r matches Err(e) ==> e == (DecodeError::Truncated { pos: at }),
{
    if p < b.len() && 2 <= b.len() - p {
        Ok(b[p] as u16 + 256 * (b[p + 1] as u16))
    } else {
        Err(DecodeError::Truncated { pos: at })
    }
}

/// Two bytes from `p`, little-endian, two's complement.
fn read_i16(b: &[u8], p: usize, at: usize) -> (r: Result<i16, DecodeError>)
    ensures
        r is Ok <==> p + 2 <= b@.len(),
        r matches Ok(x) ==> x == le_i16(b@, p as int),
        r matches Err(e) ==> e == (DecodeError::Truncated { pos: at }),
{
    let u = read_u16(b, p, at)?;
    if u < 0x8000 {
        Ok(u as i16)
    } else {
        Ok((u as i32 - 0x1_0000) as i16)
    }
}

/// Four bytes from `p`, little-endian, unsigned.
fn read_u32(b: &[u8], p: usize, at: usize) -> (r: Result<u32, DecodeError>)
    ensures
        r is Ok <==> p + 4 <= b@.len(),
        r matches Ok(x) ==> x == le_u32(b@, p as int),
        r matches Err(e) ==> e == (DecodeError::Truncated { pos: at }),
{
    if p < b.len() && 4 <= b.len() - p {
        let lo = read_u16(b, p, at)?;
        let hi = read_u16(b, p + 2, at)?;
        Ok(lo as u32 + 0x1_0000 * (hi as u32))
    } else {
        Err(DecodeError::Truncated { pos: at })
    }
}

/// Four bytes from `p`, little-endian, two's complement.
fn read_i32(b: &[u8], p: usize, at: usize) -> (r: Result<i32, DecodeError>)
    ensures
        r is Ok <==> p + 4 <= b@.len(),
        r matches Ok(x) ==> x == le_i32(b@, p as int),
        r matches Err(e) ==> e == (DecodeError::Truncated { pos: at }),
{
    let u = read_u32(b, p, at)?;
    if u < 0x8000_0000 {
        Ok(u as i32)
    } else {
        Ok((u as i64 - 0x1_0000_0000) as i32)
    }
}

/// Eight bytes from `p`, little-endian, unsigned.
fn read_u64(b: &[u8], p: usize, at: usize) -> (r: Result<u64, DecodeError>)
    ensures
        r is Ok <==> p + 8 <= b@.len(),
        r matches Ok(x) ==> x == le_u64(b@, p as int),
        r matches Err(e) ==> e == (DecodeError::Truncated { pos: at }),
{
    if p < b.len() && 8 <= b.len() - p {
        let lo = read_u32(b, p, at)?;
        let hi = read_u32(b, p + 4, at)?;
        Ok(lo as u64 + 0x1_0000_0000 * (hi as u64))
    } else {
        Err(DecodeError::Truncated { pos: at })
    }
}

/// The payload counted by a length field of `w` (1, 4 or 8) bytes at `p`,
/// and the offset after it.
fn read_counted<'a>(b: &'a [u8], p: usize, w: usize, at: usize) -> (r: Result<
    (&'a [u8], usize),
    DecodeError,
>)
    requires
        w == 1 || w == 4 || w == 8,
    ensures
        r is Ok <==> counted_fits(b@, p as int, w as int),
        r matches Ok((d, end)) ==> counted(b@, p as int, w as int, d@, end as int),
        r matches Err(e) ==> e == (DecodeError::Truncated { pos: at }),
{
    let n: u64 = if w == 1 {
        read_u8(b, p, at)? as u64
    } else if w == 4 {
        read_u32(b, p, at)? as u64
    } else {
        read_u64(b, p, at)?
    };
    let room = b.len() - p - w;
    if n > room as u64 {
        return Err(DecodeError::Truncated { pos: at });
    }
    let end = p + w + n as usize;
    Ok((&b[p + w..end], end))
}

/// Decodes the instruction that starts at `pos`: the instruction and the
/// offset that follows it, or why it cannot be decoded.
pub fn parse_op<'a>(b: &'a [u8], pos: usize) -> (r: Result<(PickleOp<'a>, usize), DecodeError>)
    ensures
        match r {
            Ok((op, end)) => {
                &&& decode_error(b@, pos as int) is None
                &&& end == end_of(b@, pos as int)
                &&& pos < end <= b@.len()
                &&& decodes(b@, pos as int, op, end as int)
            },
            Err(e) => decode_error(b@, pos as int) == Some(e),
        },
{
    if pos >= b.len() {
        return Err(DecodeError::Truncated { pos });
    }
    let tag = b[pos];
    let p = pos + 1;
    match tag {
        p_op::MARK => Ok((PickleOp::MARK, p)),
        p_op::STOP => Ok((PickleOp::STOP, p)),
        p_op::POP => Ok((PickleOp::POP, p)),
        p_op::POP_MARK => Ok((PickleOp::POP_MARK, p)),
        p_op::DUP => Ok((PickleOp::DUP, p)),
        p_op::NONE => Ok((PickleOp::NONE, p)),
        p_op::BINPERSID => Ok((PickleOp::BINPERSID, p)),
        p_op::REDUCE => Ok((PickleOp::REDUCE, p)),
        p_op::APPEND => Ok((PickleOp::APPEND, p)),
        p_op::BUILD => Ok((PickleOp::BUILD, p)),
        p_op::DICT => Ok((PickleOp::DICT, p)),
        p_op::EMPTY_DICT => Ok((PickleOp::EMPTY_DICT, p)),
        p_op::APPENDS => Ok((PickleOp::APPENDS, p)),
        p_op::LIST => Ok((PickleOp::LIST, p)),
        p_op::EMPTY_LIST => Ok((PickleOp::EMPTY_LIST, p)),
        p_op::OBJ => Ok((PickleOp::OBJ, p)),
        p_op::SETITEM => Ok((PickleOp::SETITEM, p)),
        p_op::TUPLE => Ok((PickleOp::TUPLE, p)),
        p_op::EMPTY_TUPLE => Ok((PickleOp::EMPTY_TUPLE, p)),
        p_op::SETITEMS => Ok((PickleOp::SETITEMS, p)),
        p_op::NEWOBJ => Ok((PickleOp::NEWOBJ, p)),
        p_op::TUPLE1 => Ok((PickleOp::TUPLE1, p)),
        p_op::TUPLE2 => Ok((PickleOp::TUPLE2, p)),
        p_op::TUPLE3 => Ok((PickleOp::TUPLE3, p)),
        p_op::NEWTRUE => Ok((PickleOp::NEWTRUE, p)),
        p_op::NEWFALSE => Ok((PickleOp::NEWFALSE, p)),
        p_op::EMPTY_SET => Ok((PickleOp::EMPTY_SET, p)),
        p_op::ADDITEMS => Ok((PickleOp::ADDITEMS, p)),
        p_op::FROZENSET => Ok((PickleOp::FROZENSET, p)),
        p_op::NEWOBJ_EX => Ok((PickleOp::NEWOBJ_EX, p)),
        p_op::STACK_GLOBAL => Ok((PickleOp::STACK_GLOBAL, p)),
        p_op::MEMOIZE => Ok((PickleOp::MEMOIZE, p)),
        p_op::NEXT_BUFFER => Ok((PickleOp::NEXT_BUFFER, p)),
        p_op::READONLY_BUFFER => Ok((PickleOp::READONLY_BUFFER, p)),
        p_op::FLOAT => {
            let (s, end) = read_line(b, p, pos)?;
            Ok((PickleOp::FLOAT(s), end))
        },
        p_op::INT => {
            let (s, end) = read_line(b, p, pos)?;
            Ok((PickleOp::INT(s), end))
        },
        p_op::LONG => {
            let (s, end) = read_line(b, p, pos)?;
            Ok((PickleOp::LONG(s), end))
        },
        p_op::PERSID => {
            let (s, end) = read_line(b, p, pos)?;
            Ok((PickleOp::PERSID(s), end))
        },
        p_op::STRING => {
            let (s, end) = read_line(b, p, pos)?;
            Ok((PickleOp::STRING(s), end))
        },
        p_op::UNICODE => {
            let (s, end) = read_line(b, p, pos)?;
            Ok((PickleOp::UNICODE(s), end))
        },
        p_op::GET => {
            let (s, end) = read_line(b, p, pos)?;
            Ok((PickleOp::GET(s), end))
        },
        p_op::PUT => {
            let (s, end) = read_line(b, p, pos)?;
            Ok((PickleOp::PUT(s), end))
        },
        p_op::GLOBAL => {
            let (m, mid) = read_line(b, p, pos)?;
            let (c, end) = read_line(b, mid, pos)?;
            Ok((PickleOp::GLOBAL(m, c), end))
        },
        p_op::INST => {
            let (m, mid) = read_line(b, p, pos)?;
            let (c, end) = read_line(b, mid, pos)?;
            Ok((PickleOp::INST(m, c), end))
        },
        p_op::BININT1 => Ok((PickleOp::BININT1(read_u8(b, p, pos)?), p + 1)),
        p_op::BINGET => Ok((PickleOp::BINGET(read_u8(b, p, pos)?), p + 1)),
        p_op::BINPUT => Ok((PickleOp::BINPUT(read_u8(b, p, pos)?), p + 1)),
        p_op::PROTO => Ok((PickleOp::PROTO(read_u8(b, p, pos)?), p + 1)),
        p_op::EXT1 => Ok((PickleOp::EXT1(read_u8(b, p, pos)?), p + 1)),
        p_op::BININT2 => Ok((PickleOp::BININT2(read_u16(b, p, pos)?), p + 2)),
        p_op::EXT2 => Ok((PickleOp::EXT2(read_i16(b, p, pos)?), p + 2)),
        p_op::BININT => Ok((PickleOp::BININT(read_i32(b, p, pos)?), p + 4)),
        p_op::EXT4 => Ok((PickleOp::EXT4(read_i32(b, p, pos)?), p + 4)),
        p_op::LONG_BINGET => Ok((PickleOp::LONG_BINGET(read_u32(b, p, pos)?), p + 4)),
        p_op::LONG_BINPUT => Ok((PickleOp::LONG_BINPUT(read_u32(b, p, pos)?), p + 4)),
        p_op::FRAME => Ok((PickleOp::FRAME(read_u64(b, p, pos)?), p + 8)),
        p_op::BINFLOAT => Ok((PickleOp::BINFLOAT(read_u64(b, p, pos)?), p + 8)),
        p_op::SHORT_BINSTRING => {
            let (d, end) = read_counted(b, p, 1, pos)?;
            Ok((PickleOp::SHORT_BINSTRING(d), end))
        },
        p_op::LONG1 => {
            let (d, end) = read_counted(b, p, 1, pos)?;
            Ok((PickleOp::LONG1(d), end))
        },
        p_op::SHORT_BINBYTES => {
            let (d, end) = read_counted(b, p, 1, pos)?;
            Ok((PickleOp::SHORT_BINBYTES(d), end))
        },
        p_op::BINSTRING => {
            let (d, end) = read_counted(b, p, 4, pos)?;
            Ok((PickleOp::BINSTRING(d), end))
        },
        p_op::LONG4 => {
            let (d, end) = read_counted(b, p, 4, pos)?;
            Ok((PickleOp::LONG4(d), end))
        },
        p_op::BINBYTES => {
            let (d, end) = read_counted(b, p, 4, pos)?;
            Ok((PickleOp::BINBYTES(d), end))
        },
        p_op::BINBYTES8 => {
            let (d, end) = read_counted(b, p, 8, pos)?;
            Ok((PickleOp::BINBYTES8(d), end))
        },
        p_op::BYTEARRAY8 => {
            let (d, end) = read_counted(b, p, 8, pos)?;
            Ok((PickleOp::BYTEARRAY8(d), end))
        },
        p_op::SHORT_BINUNICODE => {
            let (d, end) = read_counted(b, p, 1, pos)?;
            match utf8_str(d) {
                Some(s) => Ok((PickleOp::SHORT_BINUNICODE(s), end)),
                None => Err(DecodeError::BadUtf8 { pos }),
            }
        },
        p_op::BINUNICODE => {
            let (d, end) = read_counted(b, p, 4, pos)?;
            match utf8_str(d) {
                Some(s) => Ok((PickleOp::BINUNICODE(s), end)),
                None => Err(DecodeError::BadUtf8 { pos }),
            }
        },
        p_op::BINUNICODE8 => {
            let (d, end) = read_counted(b, p, 8, pos)?;
            match utf8_str(d) {
                Some(s) => Ok((PickleOp::BINUNICODE8(s), end)),
                None => Err(DecodeError::BadUtf8 { pos }),
            }
        },
        _ => Err(DecodeError::BadOpcode { pos, tag }),
    }}


/// Decodes a whole buffer into its instructions, in order. Fails on an empty
/// buffer and on the first instruction that cannot be decoded.
pub fn parse_ops<'a>(b: &'a [u8]) -> (r: Result<Vec<PickleOp<'a>>, DecodeError>)
    ensures
        match r {
            Ok(ops) => {
                &&& b@.len() > 0
                &&& stream_error(b@, 0) is None
                &&& ops@.len() == op_starts(b@, 0).len()
                &&& forall|i: int|
                    0 <= i < ops@.len() ==> decodes(
                        b@,
                        #[trigger] op_starts(b@, 0)[i],
                        ops@[i],
                        end_of(b@, op_starts(b@, 0)[i]),
                    )
            },
            Err(e) => if b@.len() == 0 {
                e == (DecodeError::Truncated { pos: 0 })
            } else {
                stream_error(b@, 0) == Some(e)
            },
        },
{
    if b.len() == 0 {
        return Err(DecodeError::Truncated { pos: 0 });
    }
    let mut ops: Vec<PickleOp<'a>> = Vec::new();
    let mut pos: usize = 0;
    let ghost mut done: Seq<int> = Seq::empty();
    while pos < b.len()
        invariant
            pos <= b@.len(),
            op_starts(b@, 0) == done + op_starts(b@, pos as int),
            stream_error(b@, 0) == stream_error(b@, pos as int),
            ops@.len() == done.len(),
            forall|i: int|
                0 <= i < done.len() ==> decodes(
                    b@,
                    #[trigger] done[i],
                    ops@[i],
                    end_of(b@, done[i]),
                ),
        decreases b@.len() - pos,
    {
        let (op, end) = parse_op(b, pos)?;
        proof {
            assert(op_starts(b@, pos as int) == seq![pos as int] + op_starts(b@, end as int));
            assert(done + op_starts(b@, pos as int) =~= done.push(pos as int) + op_starts(
                b@,
                end as int,
            ));
            done = done.push(pos as int);
        }
        ops.push(op);
        pos = end;
    }
    proof {
        assert(done + op_starts(b@, pos as int) =~= done);
    }
    Ok(ops)
}

/// Whether `tag` takes a fixed-width or a length-prefixed argument.
pub open spec fn has_sized_arg(tag: u8) -> bool {
    match arg_kind(tag) {
        Some(ArgKind::Fixed(_)) | Some(ArgKind::Counted(_)) | Some(ArgKind::CountedText(_)) => true,
        _ => false,
    }
}

/// Cutting a buffer inside the fixed-width or length-prefixed argument of
/// its first instruction makes that instruction fail as truncated, at its
/// own offset.
pub proof fn lemma_truncated(b: Seq<u8>, k: int)
    requires
        decode_error(b, 0) is None,
        has_sized_arg(b[0]),
        1 <= k < end_of(b, 0),
    ensures
        decode_error(b.take(k), 0) == Some(DecodeError::Truncated { pos: 0 }),
{
    let t = b.take(k);
    assert(t[0] == b[0]);
    match arg_kind(b[0]) {
        Some(ArgKind::Counted(w)) => {
            if 1 + w <= k {
                assert(le_len(t, 1, w as int) == le_len(b, 1, w as int));
            }
        },
        Some(ArgKind::CountedText(w)) => {
            if 1 + w <= k {
                assert(le_len(t, 1, w as int) == le_len(b, 1, w as int));
            }
        },
        _ => {},
    }
}

/// The shortest encoding of the instruction with opcode byte `tag`: zero
/// for each fixed-width or length field, empty payloads and lines.
pub open spec fn minimal_encoding(tag: u8) -> Seq<u8> {
    match arg_kind(tag) {
        Some(ArgKind::Fixed(w)) => seq![tag] + Seq::new(w as nat, |i: int| 0u8),
        Some(ArgKind::Counted(w)) => seq![tag] + Seq::new(w as nat, |i: int| 0u8),
        Some(ArgKind::CountedText(w)) => seq![tag] + Seq::new(w as nat, |i: int| 0u8),
        Some(ArgKind::Line) => seq![tag, 0x0au8],
        Some(ArgKind::TwoLines) => seq![tag, 0x0au8, 0x0au8],
        _ => seq![tag],
    }
}

/// The shortest encoding of every opcode decodes, as exactly one
/// instruction that spans it.
pub proof fn lemma_minimal_encoding(tag: u8)
    requires
        arg_kind(tag) is Some,
    ensures
        decode_error(minimal_encoding(tag), 0) is None,
        end_of(minimal_encoding(tag), 0) == minimal_encoding(tag).len(),
{
    let b = minimal_encoding(tag);
    assert(valid_utf8(Seq::<u8>::empty())) by {
        reveal_with_fuel(valid_utf8, 1);
    }
    match arg_kind(tag) {
        Some(ArgKind::Counted(w)) => {
            assert(le_len(b, 1, w as int) == 0);
        },
        Some(ArgKind::CountedText(w)) => {
            assert(le_len(b, 1, w as int) == 0);
            assert(counted_payload(b, 1, w as int) =~= Seq::<u8>::empty());
        },
        Some(ArgKind::Line) => {
            lemma_newline_unique(b, 1, 1);
            assert(b.subrange(1, 1) =~= Seq::<u8>::empty());
        },
        Some(ArgKind::TwoLines) => {
            lemma_newline_unique(b, 1, 1);
            lemma_newline_unique(b, 2, 2);
            assert(b.subrange(1, 1) =~= Seq::<u8>::empty());
            assert(b.subrange(2, 2) =~= Seq::<u8>::empty());
        },
        _ => {},
    }
}

/// 256 to the power `w`.
pub open spec fn pow256(w: nat) -> nat
    decreases w,
{
    if w == 0 {
        1
    } else {
        256 * pow256((w - 1) as nat)
    }
}

/// The `w` little-endian bytes of `x`.
pub open spec fn le_bytes(x: nat, w: nat) -> Seq<u8>
    decreases w,
{
    if w == 0 {
        Seq::empty()
    } else {
        seq![(x % 256) as u8] + le_bytes(x / 256, (w - 1) as nat)
    }
}

/// The little-endian unsigned value of all of `s`.
pub open spec fn le_nat(s: Seq<u8>) -> nat
    decreases s.len(),
{
    if s.len() == 0 {
        0
    } else {
        (s[0] + 256 * le_nat(s.drop_first())) as nat
    }
}

/// The unsigned bits of the fixed-width argument of `op` (0 for others).
pub open spec fn fixed_bits(op: PickleOp) -> int {
    match op {
        PickleOp::BININT1(x)
        | PickleOp::BINGET(x)
        | PickleOp::BINPUT(x)
        | PickleOp::PROTO(x)
        | PickleOp::EXT1(x) => x as int,
        PickleOp::BININT2(x) => x as int,
        PickleOp::EXT2(x) => if x < 0 {
            x + 0x1_0000
        } else {
            x as int
        },
        PickleOp::BININT(x) | PickleOp::EXT4(x) => if x < 0 {
            x + 0x1_0000_0000
        } else {
            x as int
        },
        PickleOp::LONG_BINGET(x) | PickleOp::LONG_BINPUT(x) => x as int,
        PickleOp::FRAME(x) | PickleOp::BINFLOAT(x) => x as int,
        _ => 0,
    }
}

proof fn lemma_le_bytes(x: nat, w: nat)
    requires
        x < pow256(w),
    ensures
        le_bytes(x, w).len() == w,
        le_nat(le_bytes(x, w)) == x,
    decreases w,
{
    if w > 0 {
        let q = x / 256;
        let pw = pow256((w - 1) as nat);
        assert(q < pw) by (nonlinear_arith)
            requires x < 256 * pw, q == x / 256;
        lemma_le_bytes(q, (w - 1) as nat);
        let e = le_bytes(x, w);
        assert(e.drop_first() =~= le_bytes(q, (w - 1) as nat));
        assert(x == x % 256 + 256 * q) by (nonlinear_arith)
            requires q == x / 256;
    }
}

proof fn lemma_le_nat_reads(b: Seq<u8>, p: int, w: int)
    requires
        0 <= p,
        p + w <= b.len(),
        w == 1 || w == 2 || w == 4 || w == 8,
    ensures
        w == 1 ==> b[p] == le_nat(b.subrange(p, p + w)),
        w == 2 ==> le_u16(b, p) == le_nat(b.subrange(p, p + w)),
        w == 4 ==> le_u32(b, p) == le_nat(b.subrange(p, p + w)),
        w == 8 ==> le_u64(b, p) == le_nat(b.subrange(p, p + w)),
{
    let s = b.subrange(p, p + w);
    assert(le_nat(s.subrange(w, w)) == 0);
    assert forall|i: int| 0 <= i < w implies #[trigger] le_nat(s.subrange(i, w)) == s[i] + 256
        * le_nat(s.subrange(i + 1, w)) by {
        assert(s.subrange(i, w).drop_first() =~= s.subrange(i + 1, w));
    }
    assert(s.subrange(0, w) =~= s);
}

/// An instruction with a fixed-width argument, its argument written as the
/// `w` little-endian bytes of `x`, decodes (whatever follows it) to an
/// instruction of that opcode that spans exactly those bytes and whose
/// argument has the bits `x`.
pub proof fn lemma_fixed_round_trip<'a>(tag: u8, w: u8, x: nat, rest: Seq<u8>)
    requires
        arg_kind(tag) == Some(ArgKind::Fixed(w)),
        x < pow256(w as nat),
    ensures
        decode_error(seq![tag] + le_bytes(x, w as nat) + rest, 0) is None,
        end_of(seq![tag] + le_bytes(x, w as nat) + rest, 0) == 1 + w,
        forall|op: PickleOp<'a>, end: int|
            #[trigger] decodes(seq![tag] + le_bytes(x, w as nat) + rest, 0, op, end) ==> tag_of(op)
                == tag && end == 1 + w && fixed_bits(op) == x,
{
    let e = le_bytes(x, w as nat);
    let b = seq![tag] + e + rest;
    lemma_le_bytes(x, w as nat);
    assert(w == 1 || w == 2 || w == 4 || w == 8);
    lemma_le_nat_reads(b, 1, w as int);
    assert(b.subrange(1, 1 + w) =~= e);
}

/// An instruction with a length-prefixed argument, its payload `d` written
/// after the `w` little-endian bytes of its length, decodes (whatever
/// follows it) to an instruction of that opcode that spans exactly those
/// bytes and whose payload is `d`, or the text that `d` encodes.
pub proof fn lemma_counted_round_trip<'a>(tag: u8, w: u8, d: Seq<u8>, rest: Seq<u8>)
    requires
        arg_kind(tag) == Some(ArgKind::Counted(w)) || (arg_kind(tag) == Some(
            ArgKind::CountedText(w),
        ) && valid_utf8(d)),
        d.len() < pow256(w as nat),
    ensures
        decode_error(seq![tag] + le_bytes(d.len(), w as nat) + d + rest, 0) is None,
        end_of(seq![tag] + le_bytes(d.len(), w as nat) + d + rest, 0) == 1 + w + d.len(),
        counted_payload(seq![tag] + le_bytes(d.len(), w as nat) + d + rest, 1, w as int) == d,
{
    let e = le_bytes(d.len(), w as nat);
    let b = seq![tag] + e + d + rest;
    lemma_le_bytes(d.len(), w as nat);
    assert(w == 1 || w == 4 || w == 8);
    lemma_le_nat_reads(b, 1, w as int);
    assert(b.subrange(1, 1 + w) =~= e);
    assert(le_len(b, 1, w as int) == d.len());
    assert(counted_payload(b, 1, w as int) =~= d);
}

proof fn lemma_scalar_no_line_feed(c: u32)
    requires
        c != 0x0a,
    ensures
        forall|i: int| 0 <= i < encode_scalar(c).len() ==> #[trigger] encode_scalar(c)[i] != 0x0a,
{
    assert(c <= 0x7f && c != 0x0a ==> (c & 0x7f) as u8 != 0x0a) by (bit_vector);
    assert((0xC0 | ((c >> 6) & 0x1F) as u8) != 0x0a) by (bit_vector);
    assert((0xE0 | ((c >> 12) & 0x0F) as u8) != 0x0a) by (bit_vector);
    assert((0xF0 | ((c >> 18) & 0x7) as u8) != 0x0a) by (bit_vector);
    assert((0x80 | (c & 0x3F) as u8) != 0x0a) by (bit_vector);
    assert((0x80 | ((c >> 6) & 0x3F) as u8) != 0x0a) by (bit_vector);
    assert((0x80 | ((c >> 12) & 0x3F) as u8) != 0x0a) by (bit_vector);
}

proof fn lemma_text_no_line_feed(t: Seq<char>)
    requires
        forall|i: int| 0 <= i < t.len() ==> #[trigger] t[i] != '\n',
    ensures
        forall|j: int| 0 <= j < encode_utf8(t).len() ==> #[trigger] encode_utf8(t)[j] != 0x0a,
    decreases t.len(),
{
    if t.len() > 0 {
        assert(t[0] != '\n');
        vstd::utf8::char_u32_cast(t[0], t[0] as u32);
        vstd::utf8::char_u32_cast('\n', '\n' as u32);
        assert(('\n' as u32) == 0x0a);
        lemma_scalar_no_line_feed(t[0] as u32);
        lemma_text_no_line_feed(t.drop_first());
        let a = encode_scalar(t[0] as u32);
        let r = encode_utf8(t.drop_first());
        assert(encode_utf8(t) == a + r);
        assert forall|j: int| 0 <= j < encode_utf8(t).len() implies #[trigger] encode_utf8(t)[j]
            != 0x0a by {
            if j < a.len() {
                assert(encode_utf8(t)[j] == a[j]);
            } else {
                assert(encode_utf8(t)[j] == r[j - a.len()]);
            }
        }
    }
}

/// The text argument of a line instruction (empty for others).
pub open spec fn line_arg(op: PickleOp) -> Seq<char> {
    match op {
        PickleOp::FLOAT(s)
        | PickleOp::INT(s)
        | PickleOp::LONG(s)
        | PickleOp::PERSID(s)
        | PickleOp::STRING(s)
        | PickleOp::UNICODE(s)
        | PickleOp::GET(s)
        | PickleOp::PUT(s) => s@,
        _ => Seq::empty(),
    }
}

/// An instruction with a line argument, its text `t` (free of line feeds)
/// written in UTF-8 and ended by a line feed, decodes (whatever follows it)
/// to an instruction of that opcode that spans exactly those bytes and
/// whose text is `t`.
pub proof fn lemma_line_round_trip<'a>(tag: u8, t: Seq<char>, rest: Seq<u8>)
    requires
        arg_kind(tag) == Some(ArgKind::Line),
        forall|i: int| 0 <= i < t.len() ==> #[trigger] t[i] != '\n',
    ensures
        decode_error(seq![tag] + encode_utf8(t) + seq![0x0au8] + rest, 0) is None,
        end_of(seq![tag] + encode_utf8(t) + seq![0x0au8] + rest, 0) == 2 + encode_utf8(t).len(),
        forall|op: PickleOp<'a>, end: int|
            #[trigger] decodes(seq![tag] + encode_utf8(t) + seq![0x0au8] + rest, 0, op, end)
                ==> tag_of(op) == tag && end == 2 + encode_utf8(t).len() && line_arg(op) == t,
{
    let e = encode_utf8(t);
    let b = seq![tag] + e + seq![0x0au8] + rest;
    let j: int = 1 + e.len() as int;
    lemma_text_no_line_feed(t);
    assert forall|k: int| 1 <= k < j implies b[k] != 0x0a by {
        assert(b[k] == e[k - 1]);
    }
    assert(b[j] == 0x0a);
    assert(newline_at(b, 1, j));
    lemma_newline_unique(b, 1, j);
    assert(b.subrange(1, j) =~= e);
    encode_utf8_valid_utf8(t);
    encode_utf8_decode_utf8(t);
}

} // verus!
