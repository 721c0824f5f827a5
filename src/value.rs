use vstd::prelude::*;


use crate::ops::PickleOp;
use crate::parsers::utf8_str;
use vstd::utf8::{decode_utf8, valid_utf8};
use vstd::string::StringSliceAdditionalSpecFns;

verus! {

#[verifier::external_type_specification]
#[verifier::external_body]
pub struct ExBigInt(num_bigint::BigInt);

/// Cloning a `BigInt` copies its sign and digits.
pub assume_specification[ <num_bigint::BigInt as Clone>::clone ](b: &num_bigint::BigInt) -> (r: num_bigint::BigInt)
    ensures
        r == *b,
;

/// The integer that `BigInt::from_signed_bytes_le` builds from `b`.
pub uninterp spec fn big_of_signed_le(b: Seq<u8>) -> num_bigint::BigInt;

/// Relies on `BigInt::from_signed_bytes_le`: the arbitrary-precision integer
/// whose little-endian two's-complement encoding is `b`.
#[verifier::external_body]
fn big_from_signed_le(b: &[u8]) -> (r: num_bigint::BigInt)
    ensures
        r == big_of_signed_le(b@),
{
    num_bigint::BigInt::from_signed_bytes_le(b)
}

/// The kinds of homogeneous containers.
#[derive(Debug, Clone, Copy, PartialEq, Eq, PartialOrd, Ord, Structural)]
pub enum SequenceType {
    List,
    Dict,
    Tuple,
    MutableSet,
    FrozenSet,
}

/// A node of the value tree that evaluation builds.
#[derive(Debug, PartialEq)]
pub enum Value<'a> {
    /// An instruction that was not interpreted further.
    Raw(PickleOp<'a>),
    /// A reference to an entry of the memo table.
    Ref(u32),
    /// Something applied to arguments.
    App(Box<Value<'a>>, Vec<Value<'a>>),
    /// An instance: its class and its constructor arguments.
    Object(Box<Value<'a>>, Vec<Value<'a>>),
    /// State applied to a target.
    Build(Box<Value<'a>>, Box<Value<'a>>),
    /// A persistent-object reference.
    PersId(Box<Value<'a>>),
    /// A named callable and the arguments it accumulated.
    Global(Box<Value<'a>>, Vec<Value<'a>>),
    /// A container; the items of a `Dict` are key/value pair tuples.
    Sequence(SequenceType, Vec<Value<'a>>),
    /// UTF-8 text.
    String(&'a str),
    /// Raw bytes.
    Bytes(&'a [u8]),
    /// An integer that fits in 64 bits.
    Int(i64),
    /// An integer that does not fit in 64 bits.
    BigInt(num_bigint::BigInt),
    /// A float, as the 64 bits of its IEEE 754 encoding.
    Float(u64),
    /// A numeric literal left unparsed.
    RawNum(PickleOp<'a>),
    /// A boolean.
    Bool(bool),
    /// The absent value.
    NoneValue,
}

/// The mathematical model of a [`Value`]: the same tree, with sequences in
/// place of vectors.
pub enum Node<'a> {
    Raw(PickleOp<'a>),
    Ref(u32),
    App(Box<Node<'a>>, Seq<Node<'a>>),
    Object(Box<Node<'a>>, Seq<Node<'a>>),
    Build(Box<Node<'a>>, Box<Node<'a>>),
    PersId(Box<Node<'a>>),
    Global(Box<Node<'a>>, Seq<Node<'a>>),
    Sequence(SequenceType, Seq<Node<'a>>),
    String(Seq<char>),
    Bytes(Seq<u8>),
    Int(i64),
    BigInt(num_bigint::BigInt),
    Float(u64),
    RawNum(PickleOp<'a>),
    Bool(bool),
    NoneValue,
}

/// The models of the first `n` values of `vs`.
pub open spec fn nodes_upto<'a>(vs: Seq<Value<'a>>, n: nat) -> Seq<Node<'a>>
    decreases vs, n,
    when n <= vs.len()
{
    if n == 0 {
        Seq::empty()
    } else {
        nodes_upto(vs, (n - 1) as nat).push(node_of(vs[n - 1]))
    }
}

/// The models of all values of `vs`.
pub open spec fn nodes_of<'a>(vs: Seq<Value<'a>>) -> Seq<Node<'a>>
    decreases vs, vs.len() + 1,
{
    nodes_upto(vs, vs.len())
}

/// The model of one value.
pub open spec fn node_of<'a>(v: Value<'a>) -> Node<'a>
    decreases v, 0nat,
{
    match v {
        Value::Raw(op) => Node::Raw(op),
        Value::Ref(id) => Node::Ref(id),
        Value::App(f, xs) => Node::App(Box::new(node_of(*f)), nodes_of(xs@)),
        Value::Object(c, xs) => Node::Object(Box::new(node_of(*c)), nodes_of(xs@)),
        Value::Build(t, s) => Node::Build(Box::new(node_of(*t)), Box::new(node_of(*s))),
        Value::PersId(p) => Node::PersId(Box::new(node_of(*p))),
        Value::Global(g, xs) => Node::Global(Box::new(node_of(*g)), nodes_of(xs@)),
        Value::Sequence(k, xs) => Node::Sequence(k, nodes_of(xs@)),
        Value::String(s) => Node::String(s@),
        Value::Bytes(b) => Node::Bytes(b@),
        Value::Int(i) => Node::Int(i),
        Value::BigInt(b) => Node::BigInt(b),
        Value::Float(f) => Node::Float(f),
        Value::RawNum(op) => Node::RawNum(op),
        Value::Bool(b) => Node::Bool(b),
        Value::NoneValue => Node::NoneValue,
    }
}

impl<'a> View for Value<'a> {
    type V = Node<'a>;

    open spec fn view(&self) -> Node<'a> {
        node_of(*self)
    }
}

} // verus!

verus! {

/// The models of the values of `vs`, one for one.
pub broadcast proof fn lemma_nodes_of<'a>(vs: Seq<Value<'a>>)
    ensures
        #[trigger] nodes_of(vs).len() == vs.len(),
        forall|i: int| 0 <= i < vs.len() ==> #[trigger] nodes_of(vs)[i] == vs[i]@,
{
    lemma_nodes_upto(vs, vs.len());
}

proof fn lemma_nodes_upto<'a>(vs: Seq<Value<'a>>, n: nat)
    requires
        n <= vs.len(),
    ensures
        nodes_upto(vs, n).len() == n,
        forall|i: int| 0 <= i < n ==> #[trigger] nodes_upto(vs, n)[i] == vs[i]@,
    decreases n,
{
    if n > 0 {
        lemma_nodes_upto(vs, (n - 1) as nat);
    }
}

/// Two sequences of values with the same models one for one have the same
/// models.
pub proof fn lemma_nodes_ext<'a>(a: Seq<Value<'a>>, b: Seq<Value<'a>>)
    requires
        a.len() == b.len(),
        forall|i: int| 0 <= i < a.len() ==> #[trigger] a[i]@ == b[i]@,
    ensures
        nodes_of(a) == nodes_of(b),
{
    lemma_nodes_of(a);
    lemma_nodes_of(b);
    assert(nodes_of(a) =~= nodes_of(b));
}

/// Appending one value appends its model.
pub broadcast proof fn lemma_nodes_push<'a>(s: Seq<Value<'a>>, x: Value<'a>)
    ensures
        #[trigger] nodes_of(s.push(x)) == nodes_of(s).push(x@),
{
    lemma_nodes_of(s);
    lemma_nodes_of(s.push(x));
    assert(nodes_of(s.push(x)) =~= nodes_of(s).push(x@));
}

/// The models of a slice are the slice of the models.
pub broadcast proof fn lemma_nodes_subrange<'a>(s: Seq<Value<'a>>, a: int, b: int)
    requires
        0 <= a <= b <= s.len(),
    ensures
        #[trigger] nodes_of(s.subrange(a, b)) == nodes_of(s).subrange(a, b),
{
    lemma_nodes_of(s);
    lemma_nodes_of(s.subrange(a, b));
    assert(nodes_of(s.subrange(a, b)) =~= nodes_of(s).subrange(a, b));
}

/// The models of a concatenation are the concatenation of the models.
pub broadcast proof fn lemma_nodes_concat<'a>(a: Seq<Value<'a>>, b: Seq<Value<'a>>)
    ensures
        #[trigger] nodes_of(a + b) == nodes_of(a) + nodes_of(b),
{
    lemma_nodes_of(a);
    lemma_nodes_of(b);
    lemma_nodes_of(a + b);
    assert(nodes_of(a + b) =~= nodes_of(a) + nodes_of(b));
}

/// No values have no models.
pub broadcast proof fn lemma_nodes_empty<'a>(vs: Seq<Value<'a>>)
    ensures
        vs.len() == 0 ==> #[trigger] nodes_of(vs) == Seq::<Node<'a>>::empty(),
{
    lemma_nodes_of(vs);
    if vs.len() == 0 {
        assert(nodes_of(vs) =~= Seq::<Node<'a>>::empty());
    }
}

/// A value and its model are of the same kind.
pub broadcast proof fn lemma_node_kind<'a>(v: Value<'a>)
    ensures
        #![trigger node_of(v)]
        node_of(v) is Sequence <==> v is Sequence,
        node_of(v) is Global <==> v is Global,
        node_of(v) is String <==> v is String,
        node_of(v) is Int <==> v is Int,
        node_of(v) is Bool <==> v is Bool,
        node_of(v) is PersId <==> v is PersId,
        node_of(v) is Build <==> v is Build,
        node_of(v) is Ref <==> v is Ref,
{
}

pub broadcast group group_nodes {
    lemma_node_kind,
    lemma_nodes_of,
    lemma_nodes_empty,
    lemma_nodes_push,
    lemma_nodes_subrange,
    lemma_nodes_concat,
}

impl<'a> Clone for Value<'a> {
    fn clone(&self) -> (r: Self)
        ensures
            r@ == self@,
        decreases self,
    {
        match self {
            Value::Raw(op) => Value::Raw(*op),
            Value::Ref(id) => Value::Ref(*id),
            Value::App(f, xs) => Value::App(Box::new((**f).clone()), clone_values(xs)),
            Value::Object(c, xs) => Value::Object(Box::new((**c).clone()), clone_values(xs)),
            Value::Build(t, s) => Value::Build(Box::new((**t).clone()), Box::new((**s).clone())),
            Value::PersId(p) => Value::PersId(Box::new((**p).clone())),
            Value::Global(g, xs) => Value::Global(Box::new((**g).clone()), clone_values(xs)),
            Value::Sequence(k, xs) => Value::Sequence(*k, clone_values(xs)),
            Value::String(s) => Value::String(*s),
            Value::Bytes(b) => Value::Bytes(*b),
            Value::Int(i) => Value::Int(*i),
            Value::BigInt(b) => Value::BigInt(b.clone()),
            Value::Float(f) => Value::Float(*f),
            Value::RawNum(op) => Value::RawNum(*op),
            Value::Bool(b) => Value::Bool(*b),
            Value::NoneValue => Value::NoneValue,
        }
    }
}

/// Clones each value of `xs`.
fn clone_values<'a>(xs: &Vec<Value<'a>>) -> (r: Vec<Value<'a>>)
    ensures
        nodes_of(r@) == nodes_of(xs@),
    decreases xs,
{
    let mut r: Vec<Value<'a>> = Vec::new();
    let mut i: usize = 0;
    while i < xs.len()
        invariant
            i <= xs.len(),
            r@.len() == i,
            forall|j: int| 0 <= j < i ==> #[trigger] r@[j]@ == xs@[j]@,
        decreases xs.len() - i,
    {
        proof {
            vstd::std_specs::vec::axiom_vec_index_decreases(*xs, i as int);
        }
        r.push(xs[i].clone());
        i = i + 1;
    }
    proof {
        lemma_nodes_ext(r@, xs@);
    }
    r
}

} // verus!

verus! {

/// The byte `b` read as a signed (two's-complement) byte.
pub open spec fn signed_byte(b: u8) -> int {
    if b < 128 {
        b as int
    } else {
        b - 256
    }
}

/// The bytes `b[i..]` read as a little-endian two's-complement integer.
pub open spec fn le_signed_from(b: Seq<u8>, i: int) -> int
    decreases b.len() - i,
{
    if i >= b.len() - 1 {
        signed_byte(b.last())
    } else {
        le_signed_from(b, i + 1) * 256 + b[i]
    }
}

/// The little-endian two's-complement integer that the non-empty `b` encodes.
pub open spec fn le_signed(b: Seq<u8>) -> int {
    le_signed_from(b, 0)
}

/// Whether `x` fits in an `i64`.
pub open spec fn fits_i64(x: int) -> bool {
    i64::MIN <= x <= i64::MAX
}

/// The canonical form of an arbitrary-precision integer literal.
pub open spec fn long_node<'a>(b: Seq<u8>) -> Node<'a> {
    if fits_i64(le_signed(b)) {
        Node::Int(le_signed(b) as i64)
    } else {
        Node::BigInt(big_of_signed_le(b))
    }
}

/// Whether the text of a decimal-literal instruction is exactly `digits`.
pub open spec fn text_is(s: &str, digits: Seq<u8>) -> bool {
    s.spec_bytes() == digits
}

/// What normalization makes of a value: an instruction that carries a
/// literal becomes the literal; every other value stays as it is.
pub open spec fn fix_node<'a>(v: Node<'a>) -> Node<'a> {
    match v {
        Node::Raw(op) => match op {
            PickleOp::BININT(x) => Node::Int(x as i64),
            PickleOp::BININT1(x) => Node::Int(x as i64),
            PickleOp::BININT2(x) => Node::Int(x as i64),
            PickleOp::LONG1(b) => if b@.len() > 0 { long_node(b@) } else { Node::RawNum(op) },
            PickleOp::LONG4(b) => if b@.len() > 0 { long_node(b@) } else { Node::RawNum(op) },
            PickleOp::BINFLOAT(f) => Node::Float(f),
            PickleOp::BINUNICODE(s) => Node::String(s@),
            PickleOp::BINUNICODE8(s) => Node::String(s@),
            PickleOp::SHORT_BINUNICODE(s) => Node::String(s@),
            PickleOp::BINBYTES(b) => Node::Bytes(b@),
            PickleOp::BINBYTES8(b) => Node::Bytes(b@),
            PickleOp::SHORT_BINBYTES(b) => Node::Bytes(b@),
            PickleOp::BYTEARRAY8(b) => Node::Bytes(b@),
            PickleOp::BINSTRING(b) => legacy_string_node(b@),
            PickleOp::SHORT_BINSTRING(b) => legacy_string_node(b@),
            PickleOp::NEWTRUE => Node::Bool(true),
            PickleOp::NEWFALSE => Node::Bool(false),
            PickleOp::NONE => Node::NoneValue,
            PickleOp::INT(s) => if text_is(s, seq![0x30u8, 0x31u8]) {
                Node::Bool(true)
            } else if text_is(s, seq![0x30u8, 0x30u8]) {
                Node::Bool(false)
            } else {
                Node::RawNum(op)
            },
            PickleOp::FLOAT(_) => Node::RawNum(op),
            PickleOp::LONG(_) => Node::RawNum(op),
            _ => v,
        },
        _ => v,
    }
}

/// A legacy byte string: text when it is valid UTF-8, bytes otherwise.
pub open spec fn legacy_string_node<'a>(b: Seq<u8>) -> Node<'a> {
    if valid_utf8(b) {
        Node::String(decode_utf8(b))
    } else {
        Node::Bytes(b)
    }
}

proof fn lemma_above_stays_above(b: Seq<u8>, i: int, j: int)
    requires
        0 <= j <= i < b.len(),
        le_signed_from(b, i) > i64::MAX,
    ensures
        le_signed_from(b, j) > i64::MAX,
    decreases i - j,
{
    if j < i {
        lemma_above_stays_above(b, i, j + 1);
        let x = le_signed_from(b, j + 1);
        assert(x * 256 + b[j] > i64::MAX) by (nonlinear_arith)
            requires x > i64::MAX, 0 <= b[j];
    }
}

proof fn lemma_below_stays_below(b: Seq<u8>, i: int, j: int)
    requires
        0 <= j <= i < b.len(),
        le_signed_from(b, i) < i64::MIN,
    ensures
        le_signed_from(b, j) < i64::MIN,
    decreases i - j,
{
    if j < i {
        lemma_below_stays_below(b, i, j + 1);
        let x = le_signed_from(b, j + 1);
        assert(x * 256 + b[j] < i64::MIN) by (nonlinear_arith)
            requires x < i64::MIN, b[j] < 256;
    }
}

/// The little-endian two's-complement integer that the non-empty `b`
/// encodes, when it fits in an `i64`.
pub fn le_signed_i64(b: &[u8]) -> (r: Option<i64>)
    requires
        b@.len() > 0,
    ensures
        r is Some <==> fits_i64(le_signed(b@)),
        r matches Some(x) ==> x == le_signed(b@),
{
    let n = b.len();
    let last = b[n - 1];
    let mut acc: i128 = if last < 128 { last as i128 } else { last as i128 - 256 };
    let mut i: usize = n - 1;
    while i > 0
        invariant
            0 <= i < n == b@.len(),
            acc == le_signed_from(b@, i as int),
            fits_i64(acc as int),
        decreases i,
    {
        let next = acc * 256 + b[i - 1] as i128;
        if next > i64::MAX as i128 {
            proof {
                lemma_above_stays_above(b@, (i - 1) as int, 0);
            }
            return None;
        }
        if next < i64::MIN as i128 {
            proof {
                lemma_below_stays_below(b@, (i - 1) as int, 0);
            }
            return None;
        }
        acc = next;
        i = i - 1;
    }
    Some(acc as i64)
}

/// Normalizes a value: an instruction that carries a literal (a fixed-width
/// or arbitrary-precision integer, a float, a text or byte payload, a
/// boolean, `None`) becomes that literal; decimal-text numbers become
/// `RawNum`, but for the text `01` and `00` of `INT`, which are booleans.
/// Every other value is returned unchanged.
pub fn fix_value<'a>(val: Value<'a>) -> (r: Value<'a>)
    ensures
        r@ == fix_node(val@),
{
    match val {
        Value::Raw(op) => match op {
            PickleOp::BININT(x) => Value::Int(x as i64),
            PickleOp::BININT1(x) => Value::Int(x as i64),
            PickleOp::BININT2(x) => Value::Int(x as i64),
            PickleOp::LONG1(b) | PickleOp::LONG4(b) => if b.len() > 0 {
                long_value(b)
            } else {
                Value::RawNum(op)
            },
            PickleOp::BINFLOAT(f) => Value::Float(f),
            PickleOp::BINUNICODE(s) | PickleOp::BINUNICODE8(s) | PickleOp::SHORT_BINUNICODE(s) => {
                Value::String(s)
            },
            PickleOp::BINBYTES(b)
            | PickleOp::BINBYTES8(b)
            | PickleOp::SHORT_BINBYTES(b)
            | PickleOp::BYTEARRAY8(b) => Value::Bytes(b),
            PickleOp::BINSTRING(b) | PickleOp::SHORT_BINSTRING(b) => match utf8_str(b) {
                Some(s) => Value::String(s),
                None => Value::Bytes(b),
            },
            PickleOp::NEWTRUE => Value::Bool(true),
            PickleOp::NEWFALSE => Value::Bool(false),
            PickleOp::NONE => Value::NoneValue,
            PickleOp::INT(s) => {
                let t = s.as_bytes();
                if t.len() == 2 && t[0] == 0x30 && (t[1] == 0x31 || t[1] == 0x30) {
                    proof {
                        assert(t@ =~= seq![0x30u8, t[1]]);
                    }
                    Value::Bool(t[1] == 0x31)
                } else {
                    Value::RawNum(op)
                }
            },
            PickleOp::FLOAT(_) | PickleOp::LONG(_) => Value::RawNum(op),
            _ => Value::Raw(op),
        },
        _ => val,
    }
}

/// The canonical form of the arbitrary-precision integer literal `b`.
fn long_value<'a>(b: &[u8]) -> (r: Value<'a>)
    requires
        b@.len() > 0,
    ensures
        r@ == long_node::<'a>(b@),
{
    match le_signed_i64(b) {
        Some(x) => Value::Int(x),
        None => Value::BigInt(big_from_signed_le(b)),
    }
}

} // verus!
