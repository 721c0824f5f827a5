use vstd::prelude::*;

/// The byte values of the opcodes.
pub mod p_op;

verus! {

/// A decoded pickle instruction. Text and byte payloads borrow from the
/// decoded buffer; the payload of `BINFLOAT` is kept as the 64 bits of its
/// IEEE 754 encoding.
#[allow(non_camel_case_types)]
#[derive(Debug, Clone, Copy, PartialEq)]
pub enum PickleOp<'a> {
    MARK,
    STOP,
    POP,
    POP_MARK,
    DUP,
    FLOAT(&'a str),
    INT(&'a str),
    BININT(i32),
    BININT1(u8),
    LONG(&'a str),
    BININT2(u16),
    NONE,
    PERSID(&'a str),
    BINPERSID,
    REDUCE,
    STRING(&'a str),
    BINSTRING(&'a [u8]),
    SHORT_BINSTRING(&'a [u8]),
    UNICODE(&'a str),
    BINUNICODE(&'a str),
    APPEND,
    BUILD,
    GLOBAL(&'a str, &'a str),
    DICT,
    EMPTY_DICT,
    APPENDS,
    GET(&'a str),
    BINGET(u8),
    INST(&'a str, &'a str),
    LONG_BINGET(u32),
    LIST,
    EMPTY_LIST,
    OBJ,
    PUT(&'a str),
    BINPUT(u8),
    LONG_BINPUT(u32),
    SETITEM,
    TUPLE,
    EMPTY_TUPLE,
    SETITEMS,
    BINFLOAT(u64),
    PROTO(u8),
    NEWOBJ,
    EXT1(u8),
    EXT2(i16),
    EXT4(i32),
    TUPLE1,
    TUPLE2,
    TUPLE3,
    NEWTRUE,
    NEWFALSE,
    LONG1(&'a [u8]),
    LONG4(&'a [u8]),
    BINBYTES(&'a [u8]),
    SHORT_BINBYTES(&'a [u8]),
    SHORT_BINUNICODE(&'a str),
    BINUNICODE8(&'a str),
    BINBYTES8(&'a [u8]),
    EMPTY_SET,
    ADDITEMS,
    FROZENSET,
    NEWOBJ_EX,
    STACK_GLOBAL,
    MEMOIZE,
    FRAME(u64),
    BYTEARRAY8(&'a [u8]),
    NEXT_BUFFER,
    READONLY_BUFFER,
}

} // verus!
