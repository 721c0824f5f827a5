use vstd::prelude::*;

verus! {

/// push special markobject on stack
pub const MARK: u8 = 0x28;
/// every pickle ends with STOP
pub const STOP: u8 = 0x2e;
/// discard topmost stack item
pub const POP: u8 = 0x30;
/// discard stack top through topmost markobject
pub const POP_MARK: u8 = 0x31;
/// duplicate top stack item
pub const DUP: u8 = 0x32;
/// push float object; decimal string argument
pub const FLOAT: u8 = 0x46;
/// push integer or bool; decimal string argument
pub const INT: u8 = 0x49;
/// push four-byte signed int
pub const BININT: u8 = 0x4a;
/// push 1-byte unsigned int
pub const BININT1: u8 = 0x4b;
/// push long; decimal string argument
pub const LONG: u8 = 0x4c;
/// push 2-byte unsigned int
pub const BININT2: u8 = 0x4d;
/// push None
pub const NONE: u8 = 0x4e;
/// push persistent object; id is taken from string arg
pub const PERSID: u8 = 0x50;
/// push persistent object; id is taken from the stack
pub const BINPERSID: u8 = 0x51;
/// apply callable to argtuple, both on stack
pub const REDUCE: u8 = 0x52;
/// push string; NL-terminated string argument
pub const STRING: u8 = 0x53;
/// push string; counted binary string argument
pub const BINSTRING: u8 = 0x54;
/// push string; counted binary string argument < 256 bytes
pub const SHORT_BINSTRING: u8 = 0x55;
/// push Unicode string; raw-unicode-escaped'd argument
pub const UNICODE: u8 = 0x56;
/// push Unicode string; counted UTF-8 string argument
pub const BINUNICODE: u8 = 0x58;
/// append stack top to list below it
pub const APPEND: u8 = 0x61;
/// call __setstate__ or __dict__.update()
pub const BUILD: u8 = 0x62;
/// push self.find_class(modname, name); 2 string args
pub const GLOBAL: u8 = 0x63;
/// build a dict from stack items
pub const DICT: u8 = 0x64;
/// push empty dict
pub const EMPTY_DICT: u8 = 0x7d;
/// extend list on stack by topmost stack slice
pub const APPENDS: u8 = 0x65;
/// push item from memo on stack; index is string arg
pub const GET: u8 = 0x67;
/// push item from memo on stack; index is 1-byte arg
pub const BINGET: u8 = 0x68;
/// build & push class instance
pub const INST: u8 = 0x69;
/// push item from memo on stack; index is 4-byte arg
pub const LONG_BINGET: u8 = 0x6a;
/// build list from topmost stack items
pub const LIST: u8 = 0x6c;
/// push empty list
pub const EMPTY_LIST: u8 = 0x5d;
/// build & push class instance
pub const OBJ: u8 = 0x6f;
/// store stack top in memo; index is string arg
pub const PUT: u8 = 0x70;
/// store stack top in memo; index is 1-byte arg
pub const BINPUT: u8 = 0x71;
/// store stack top in memo; index is 4-byte arg
pub const LONG_BINPUT: u8 = 0x72;
/// add key+value pair to dict
pub const SETITEM: u8 = 0x73;
/// build tuple from topmost stack items
pub const TUPLE: u8 = 0x74;
/// push empty tuple
pub const EMPTY_TUPLE: u8 = 0x29;
/// modify dict by adding topmost key+value pairs
pub const SETITEMS: u8 = 0x75;
/// push float; arg is 8-byte float encoding
pub const BINFLOAT: u8 = 0x47;

// Protocol 2
/// identify pickle protocol
pub const PROTO: u8 = 0x80;
/// build object by applying cls.__new__ to argtuple
pub const NEWOBJ: u8 = 0x81;
/// push object from extension registry; 1-byte index
pub const EXT1: u8 = 0x82;
/// ditto, but 2-byte index
pub const EXT2: u8 = 0x83;
/// ditto, but 4-byte index
pub const EXT4: u8 = 0x84;
/// build 1-tuple from stack top
pub const TUPLE1: u8 = 0x85;
/// build 2-tuple from two topmost stack items
pub const TUPLE2: u8 = 0x86;
/// build 3-tuple from three topmost stack items
pub const TUPLE3: u8 = 0x87;
/// push True
pub const NEWTRUE: u8 = 0x88;
/// push False
pub const NEWFALSE: u8 = 0x89;
/// push long from < 256 bytes
pub const LONG1: u8 = 0x8a;
/// push really big long
pub const LONG4: u8 = 0x8b;

// Protocol 3
/// push bytes; counted binary string argument
pub const BINBYTES: u8 = 0x42;
/// push bytes; counted binary string argument < 256 bytes
pub const SHORT_BINBYTES: u8 = 0x43;

// Protocol 4
/// push short string; UTF-8 length < 256 bytes
pub const SHORT_BINUNICODE: u8 = 0x8c;
/// push very long string
pub const BINUNICODE8: u8 = 0x8d;
/// push very long bytes string
pub const BINBYTES8: u8 = 0x8e;
/// push empty set on the stack
pub const EMPTY_SET: u8 = 0x8f;
/// modify set by adding topmost stack items
pub const ADDITEMS: u8 = 0x90;
/// build frozenset from topmost stack items
pub const FROZENSET: u8 = 0x91;
/// like NEWOBJ but work with keyword only arguments
pub const NEWOBJ_EX: u8 = 0x92;
/// same as GLOBAL but using names on the stacks
pub const STACK_GLOBAL: u8 = 0x93;
/// store top of the stack in memo
pub const MEMOIZE: u8 = 0x94;
/// indicate the beginning of a new frame
pub const FRAME: u8 = 0x95;

// Protocol 5
/// push bytearray
pub const BYTEARRAY8: u8 = 0x96;
/// push next out-of-band buffer
pub const NEXT_BUFFER: u8 = 0x97;
/// make top of stack readonly
pub const READONLY_BUFFER: u8 = 0x98;


} // verus!
