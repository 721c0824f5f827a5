use vstd::prelude::*;

use crate::value::{Node, Value};

verus! {

broadcast use crate::value::group_nodes;

/// The element type of a tensor's storage.
#[derive(Debug, Clone, PartialEq, Eq)]
pub enum TensorType {
    Float64,
    Float32,
    Float16,
    BFloat16,
    Int64,
    Int32,
    Int16,
    Int8,
    UInt8,
    Unknown(String),
}

/// The size in bytes of one element of type `t`; 0 when it is unknown.
pub open spec fn type_size(t: TensorType) -> nat {
    match t {
        TensorType::Float64 => 8,
        TensorType::Float32 => 4,
        TensorType::Float16 => 2,
        TensorType::BFloat16 => 2,
        TensorType::Int64 => 8,
        TensorType::Int32 => 4,
        TensorType::Int16 => 2,
        TensorType::Int8 => 1,
        TensorType::UInt8 => 1,
        TensorType::Unknown(_) => 0,
    }
}

/// `c` with an ASCII capital letter turned into its small letter.
pub open spec fn ascii_lower_char(c: char) -> char {
    if 'A' <= c <= 'Z' {
        ((c as u32) + 32) as char
    } else {
        c
    }
}

/// `s` with every ASCII capital letter turned into its small letter.
pub open spec fn ascii_lower(s: Seq<char>) -> Seq<char> {
    s.map_values(|c: char| ascii_lower_char(c))
}

/// `s` without a trailing `suffix`, if it has one.
pub open spec fn without_suffix(s: Seq<char>, suffix: Seq<char>) -> Seq<char> {
    if suffix.is_suffix_of(s) {
        s.subrange(0, s.len() - suffix.len())
    } else {
        s
    }
}

/// The normalized name of a storage type: without a trailing `Storage`, in
/// small letters.
pub open spec fn storage_name(s: Seq<char>) -> Seq<char> {
    ascii_lower(without_suffix(s, "Storage"@))
}

/// The element type that a normalized storage name names; `None` for a
/// name that is not known.
pub open spec fn type_named(l: Seq<char>) -> Option<TensorType> {
    if l == "float64"@ || l == "double"@ {
        Some(TensorType::Float64)
    } else if l == "float32"@ || l == "float"@ {
        Some(TensorType::Float32)
    } else if l == "float16"@ || l == "half"@ {
        Some(TensorType::Float16)
    } else if l == "bfloat16"@ {
        Some(TensorType::BFloat16)
    } else if l == "int64"@ || l == "long"@ {
        Some(TensorType::Int64)
    } else if l == "int32"@ || l == "int"@ {
        Some(TensorType::Int32)
    } else if l == "int16"@ || l == "short"@ {
        Some(TensorType::Int16)
    } else if l == "int8"@ || l == "char"@ {
        Some(TensorType::Int8)
    } else if l == "uint8"@ || l == "byte"@ {
        Some(TensorType::UInt8)
    } else {
        None
    }
}

/// Relies on `str::to_ascii_lowercase`: ASCII capital letters become small
/// letters, every other character stays.
#[verifier::external_body]
fn lowercase_ascii(s: &str) -> (r: String)
    ensures
        r@ == ascii_lower(s@),
{
    s.to_ascii_lowercase()
}

/// Relies on `str::strip_suffix`: the text before `suffix` when `s` ends
/// with it.
#[verifier::external_body]
fn strip_suffix_of<'a>(s: &'a str, suffix: &str) -> (r: Option<&'a str>)
    ensures
        r is Some <==> suffix@.is_suffix_of(s@),
        r matches Some(x) ==> x@ == s@.subrange(0, s@.len() - suffix@.len()),
{
    s.strip_suffix(suffix)
}

/// Whether `a` and `b` hold the same text.
fn same_text(a: &String, b: &str) -> (r: bool)
    ensures
        r == (a@ == b@),
{
    let o = b.to_owned();
    *a == o
}

impl TensorType {
    /// The size in bytes of one element; 0 for an unknown type.
    pub fn size(&self) -> (r: usize)
        ensures
            r == type_size(*self),
    {
        match self {
            TensorType::Float64 => 8,
            TensorType::Float32 => 4,
            TensorType::Float16 => 2,
            TensorType::BFloat16 => 2,
            TensorType::Int64 => 8,
            TensorType::Int32 => 4,
            TensorType::Int16 => 2,
            TensorType::Int8 => 1,
            TensorType::UInt8 => 1,
            TensorType::Unknown(_) => 0,
        }
    }

    /// The element type of a storage type name such as `FloatStorage`: a
    /// trailing `Storage` is dropped and case is ignored; an unknown name
    /// gives `Unknown` with the normalized name.
    pub fn from_name(s: &str) -> (r: TensorType)
        ensures
            type_of_name(r, s@),
    {
        let base = match strip_suffix_of(s, "Storage") {
            Some(b) => b,
            None => s,
        };
        let l = lowercase_ascii(base);
        if same_text(&l, "float64") || same_text(&l, "double") {
            TensorType::Float64
        } else if same_text(&l, "float32") || same_text(&l, "float") {
            TensorType::Float32
        } else if same_text(&l, "float16") || same_text(&l, "half") {
            TensorType::Float16
        } else if same_text(&l, "bfloat16") {
            TensorType::BFloat16
        } else if same_text(&l, "int64") || same_text(&l, "long") {
            TensorType::Int64
        } else if same_text(&l, "int32") || same_text(&l, "int") {
            TensorType::Int32
        } else if same_text(&l, "int16") || same_text(&l, "short") {
            TensorType::Int16
        } else if same_text(&l, "int8") || same_text(&l, "char") {
            TensorType::Int8
        } else if same_text(&l, "uint8") || same_text(&l, "byte") {
            TensorType::UInt8
        } else {
            TensorType::Unknown(l)
        }
    }
}

impl std::str::FromStr for TensorType {
    type Err = std::convert::Infallible;

    fn from_str(s: &str) -> (r: Result<Self, Self::Err>)
        ensures
            r matches Ok(t) && type_of_name(t, s@),
    {
        Ok(TensorType::from_name(s))
    }
}

/// Where one tensor of a checkpoint lies.
#[derive(Debug, Clone, PartialEq, Eq)]
pub struct RepugnantTorchTensor {
    /// The tensor's name.
    pub name: String,
    /// The device it was saved from.
    pub device: String,
    /// Its element type.
    pub tensor_type: TensorType,
    /// The archive member that holds its storage.
    pub storage: String,
    /// The length of that whole storage, in elements.
    pub storage_len: u64,
    /// The offset of the tensor's data in its storage, in bytes.
    pub storage_offset: u64,
    /// The offset of the tensor's data in the archive file, in bytes.
    pub absolute_offset: u64,
    /// The tensor's dimensions.
    pub shape: Vec<usize>,
    /// The tensor's strides.
    pub stride: Vec<usize>,
    /// Whether the tensor requires gradients.
    pub requires_grad: bool,
}

/// The tensors of a checkpoint, in the order of its dictionary.
#[derive(Debug, Clone, PartialEq, Eq)]
pub struct RepugnantTorchTensors(pub Vec<RepugnantTorchTensor>);

impl RepugnantTorchTensors {
    /// The tensors, by value.
    pub fn into_vec(self) -> (r: Vec<RepugnantTorchTensor>)
        ensures
            r@ == self.0@,
    {
        self.0
    }
}

/// The dimensions that the model `vs` lists, when each is a non-negative
/// integer.
pub open spec fn dims_spec<'a>(vs: Seq<Node<'a>>) -> Option<Seq<usize>> {
    if forall|i: int| 0 <= i < vs.len() ==> (#[trigger] vs[i] matches Node::Int(n) && 0 <= n
        <= usize::MAX) {
        Some(Seq::new(vs.len(), |i: int| vs[i]->Int_0 as usize))
    } else {
        None
    }
}

/// The dimensions that `vs` lists (a shape or a stride): each must be a
/// non-negative integer.
pub fn dims_of<'a>(vs: &Vec<Value<'a>>) -> (r: Option<Vec<usize>>)
    ensures
        match dims_spec(crate::value::nodes_of(vs@)) {
            Some(d) => r matches Some(x) && x@ == d,
            None => r is None,
        },
{
    let ghost xs = crate::value::nodes_of(vs@);
    proof {
        crate::value::lemma_nodes_of(vs@);
    }
    let mut out: Vec<usize> = Vec::new();
    let mut i: usize = 0;
    while i < vs.len()
        invariant
            xs == crate::value::nodes_of(vs@),
            xs.len() == vs@.len(),
            forall|j: int| 0 <= j < xs.len() ==> #[trigger] xs[j] == vs@[j]@,
            i <= vs@.len(),
            out@.len() == i,
            forall|j: int|
                0 <= j < i ==> (#[trigger] xs[j] matches Node::Int(n) && 0 <= n <= usize::MAX
                    && out@[j] == n as usize),
        decreases vs@.len() - i,
    {
        match &vs[i] {
            Value::Int(n) => {
                if *n < 0 || *n as u64 > usize::MAX as u64 {
                    assert(!(xs[i as int] matches Node::Int(n) && 0 <= n <= usize::MAX));
                    return None;
                }
                out.push(*n as usize);
            },
            _ => {
                assert(!(xs[i as int] matches Node::Int(n) && 0 <= n <= usize::MAX));
                return None;
            },
        }
        i = i + 1;
    }
    assert(out@ =~= Seq::new(xs.len(), |j: int| xs[j]->Int_0 as usize));
    Some(out)
}

/// Why a value tree is not a checkpoint of tensors.
#[derive(Debug, Clone, Copy, PartialEq, Eq, Structural)]
pub enum TorchError {
    /// The values are neither a `Build` first nor a single container.
    UnexpectedTopLevel,
    /// The dictionary is neither a plain dictionary nor an ordered one.
    UnexpectedDictionary,
    /// An item of the dictionary is no key/value pair.
    BadItem,
    /// A key of the dictionary is no text.
    KeyNotString,
    /// A tensor-rebuild call does not have its expected arguments.
    BadRebuildArgs,
    /// A shape or a stride holds something other than a non-negative integer.
    BadDims,
    /// A persistent id does not have the expected shape.
    BadPersistentId,
    /// A storage type is not a `torch` name ending in `Storage`.
    BadStorageType,
    /// An offset or a length is negative, or an offset does not fit.
    BadOffset,
}

/// Whether `v` is the named callable `module.name` (with any arguments).
pub open spec fn is_callee<'a>(v: Node<'a>, module: Seq<char>, name: Seq<char>) -> bool {
    v is Global && *v->Global_0 == Node::<'a>::Sequence(
        crate::value::SequenceType::Tuple,
        seq![Node::String(module), Node::String(name)],
    )
}

/// The items of the dictionary that the values `vals` of a checkpoint hold.
pub open spec fn checkpoint_items<'a>(vals: Seq<Node<'a>>) -> Result<Seq<Node<'a>>, TorchError> {
    let top = if vals.len() > 0 && vals[0] is Build {
        Some(*vals[0]->Build_0)
    } else if vals.len() == 1 && vals[0] is Sequence {
        Some(vals[0])
    } else {
        None
    };
    match top {
        None => Err(TorchError::UnexpectedTopLevel),
        Some(Node::Global(g, args)) => if is_callee(*g, "collections"@, "OrderedDict"@) && args.len()
            >= 1 {
            Ok(args.subrange(1, args.len() as int))
        } else {
            Err(TorchError::UnexpectedDictionary)
        },
        Some(Node::Sequence(crate::value::SequenceType::Dict, items)) => Ok(items),
        _ => Err(TorchError::UnexpectedDictionary),
    }
}

/// What a checkpoint's dictionary entry says of one tensor.
#[derive(Debug)]
pub struct TensorEntry<'a> {
    /// The tensor's name.
    pub name: &'a str,
    /// The device it was saved from.
    pub device: &'a str,
    /// The storage type's name without its `Storage` ending.
    pub storage_type: &'a str,
    /// The storage's key in the archive's data directory.
    pub storage_key: &'a str,
    /// The length of the storage.
    pub storage_len: u64,
    /// The tensor's offset in its storage, in elements.
    pub offset: u64,
    /// The tensor's dimensions.
    pub shape: Vec<usize>,
    /// The tensor's strides.
    pub stride: Vec<usize>,
    /// Whether the tensor requires gradients.
    pub requires_grad: bool,
}

/// Whether `v` is a tuple.
pub open spec fn is_tuple<'a>(v: Node<'a>) -> bool {
    v is Sequence && v->Sequence_0 == crate::value::SequenceType::Tuple
}

/// Whether the rebuild arguments `a` start with a persistent id, an offset,
/// a shape, a stride and the gradient flag.
pub open spec fn rebuild_args_ok<'a>(a: Seq<Node<'a>>) -> bool {
    &&& a.len() >= 5
    &&& a[0] is PersId
    &&& a[1] is Int
    &&& is_tuple(a[2])
    &&& is_tuple(a[3])
    &&& a[4] is Bool
}

/// Whether `pid` is a storage persistent id: `("storage", type, key,
/// device, length)`.
pub open spec fn persistent_id_ok<'a>(pid: Node<'a>) -> bool {
    &&& is_tuple(pid)
    &&& pid->Sequence_1.len() == 5
    &&& pid->Sequence_1[0] == Node::<'a>::String("storage"@)
    &&& pid->Sequence_1[2] is String
    &&& pid->Sequence_1[3] is String
    &&& pid->Sequence_1[4] is Int
}

/// The name pair of the callable `v`.
pub open spec fn callee_names<'a>(v: Node<'a>) -> Seq<Node<'a>> {
    (*v->Global_0)->Sequence_1
}

/// Whether `v` names a `torch` storage type ending in `Storage`.
pub open spec fn storage_type_ok<'a>(v: Node<'a>) -> bool {
    &&& v is Global
    &&& is_tuple(*v->Global_0)
    &&& callee_names(v).len() == 2
    &&& callee_names(v)[0] == Node::<'a>::String("torch"@)
    &&& callee_names(v)[1] is String
    &&& "Storage"@.is_suffix_of(callee_names(v)[1]->String_0)
}

/// Why the rebuild arguments `a` describe no tensor; `None` when they do.
pub open spec fn entry_error<'a>(a: Seq<Node<'a>>) -> Option<TorchError> {
    if !rebuild_args_ok(a) {
        Some(TorchError::BadRebuildArgs)
    } else if dims_spec(a[2]->Sequence_1) is None || dims_spec(a[3]->Sequence_1) is None {
        Some(TorchError::BadDims)
    } else if !persistent_id_ok(*a[0]->PersId_0) {
        Some(TorchError::BadPersistentId)
    } else if !storage_type_ok((*a[0]->PersId_0)->Sequence_1[1]) {
        Some(TorchError::BadStorageType)
    } else if a[1]->Int_0 < 0 || (*a[0]->PersId_0)->Sequence_1[4]->Int_0 < 0 {
        Some(TorchError::BadOffset)
    } else {
        None
    }
}

/// The rebuild arguments of the dictionary item `item`: `Ok(None)` for an
/// item whose value is no tensor rebuild call.
pub open spec fn rebuild_args<'a>(item: Node<'a>) -> Result<Option<Seq<Node<'a>>>, TorchError> {
    if !(is_tuple(item) && item->Sequence_1.len() == 2) {
        Err(TorchError::BadItem)
    } else {
        let kv = item->Sequence_1;
        if !(kv[0] is String) {
            Err(TorchError::KeyNotString)
        } else if !(kv[1] is Global) || !is_callee(
            *kv[1]->Global_0,
            "torch._utils"@,
            "_rebuild_tensor_v2"@,
        ) {
            Ok(None)
        } else if kv[1]->Global_1.len() == 1 && is_tuple(kv[1]->Global_1[0]) {
            Ok(Some(kv[1]->Global_1[0]->Sequence_1))
        } else {
            Err(TorchError::BadRebuildArgs)
        }
    }
}

/// Whether `e` holds what the well-formed rebuild arguments `a` of the item
/// named `name` say.
pub open spec fn entry_matches<'a>(e: TensorEntry<'a>, name: Seq<char>, a: Seq<Node<'a>>) -> bool {
    let p = (*a[0]->PersId_0)->Sequence_1;
    let styp = callee_names(p[1])[1]->String_0;
    &&& e.name@ == name
    &&& e.storage_type@ == styp.subrange(0, styp.len() - 7)
    &&& e.storage_key@ == p[2]->String_0
    &&& e.device@ == p[3]->String_0
    &&& e.storage_len == p[4]->Int_0
    &&& e.offset == a[1]->Int_0
    &&& dims_spec(a[2]->Sequence_1) == Some(e.shape@)
    &&& dims_spec(a[3]->Sequence_1) == Some(e.stride@)
    &&& e.requires_grad == a[4]->Bool_0
}

/// Whether `a` and `b` hold the same text.
fn same_str(a: &str, b: &str) -> (r: bool)
    ensures
        r == (a@ == b@),
{
    let x = a.to_owned();
    let y = b.to_owned();
    x == y
}

/// Whether `v` is the text `s`.
fn text_is<'a>(v: &Value<'a>, s: &str) -> (r: bool)
    ensures
        r == (v@ == Node::<'a>::String(s@)),
{
    match v {
        Value::String(x) => same_str(x, s),
        _ => false,
    }
}

/// Whether `v` is the named callable `module.name`.
fn is_named_call<'a>(v: &Value<'a>, module: &str, name: &str) -> (r: bool)
    ensures
        r == is_callee(v@, module@, name@),
{
    match v {
        Value::Global(t, _) => match &**t {
            Value::Sequence(k, xs) => {
                proof {
                    crate::value::lemma_nodes_of(xs@);
                    assert(*v@->Global_0 == (**t)@);
                    assert((**t)@ == Node::Sequence(*k, crate::value::nodes_of(xs@)));
                }
                if *k == crate::value::SequenceType::Tuple && xs.len() == 2 {
                    let r = text_is(&xs[0], module) && text_is(&xs[1], name);
                    proof {
                        if r {
                            assert(crate::value::nodes_of(xs@) =~= seq![
                                Node::<'a>::String(module@),
                                Node::String(name@),
                            ]);
                        } else {
                            assert(crate::value::nodes_of(xs@)[0] == xs@[0]@);
                            assert(crate::value::nodes_of(xs@)[1] == xs@[1]@);
                        }
                    }
                    r
                } else {
                    false
                }
            },
            _ => {
                assert(*v@->Global_0 == (**t)@);
                false
            },
        },
        _ => false,
    }
}

/// The items of the dictionary that the evaluated values of a checkpoint
/// hold, at the top or as the target of a `Build`: those of a plain
/// dictionary, or the pairs that an ordered dictionary received after its
/// constructor's argument.
pub fn checkpoint_dict<'b, 'a>(vals: &'b Vec<Value<'a>>) -> (r: Result<&'b [Value<'a>], TorchError>)
    ensures
        match checkpoint_items(crate::value::nodes_of(vals@)) {
            Ok(items) => r matches Ok(v) && crate::value::nodes_of(v@) == items,
            Err(e) => r matches Err(x) && x == e,
        },
{
    proof {
        crate::value::lemma_nodes_of(vals@);
    }
    let top: &Value<'a> = if vals.len() > 0 && matches!(vals[0], Value::Build(..)) {
        match &vals[0] {
            Value::Build(t, s) => {
                assert(vals@[0]@ == Node::Build(Box::new((**t)@), Box::new((**s)@)));
                &**t
            },
            _ => return Err(TorchError::UnexpectedTopLevel),
        }
    } else if vals.len() == 1 && matches!(vals[0], Value::Sequence(..)) {
        &vals[0]
    } else {
        return Err(TorchError::UnexpectedTopLevel);
    };
    match top {
        Value::Global(g, args) => {
            proof {
                crate::value::lemma_nodes_of(args@);
                assert(top@ == Node::Global(Box::new((**g)@), crate::value::nodes_of(args@)));
            }
            if is_named_call(&**g, "collections", "OrderedDict") && args.len() >= 1 {
                let items = &args[1..args.len()];
                proof {
                    assert(items@ == args@.subrange(1, args@.len() as int));
                }
                Ok(items)
            } else {
                Err(TorchError::UnexpectedDictionary)
            }
        },
        Value::Sequence(k, items) => {
            assert(top@ == Node::Sequence(*k, crate::value::nodes_of(items@)));
            if *k == crate::value::SequenceType::Dict {
                let all = &items[0..items.len()];
                proof {
                    assert(all@ =~= items@);
                }
                Ok(all)
            } else {
                Err(TorchError::UnexpectedDictionary)
            }
        },
        _ => Err(TorchError::UnexpectedDictionary),
    }
}

/// The storage type name of `v` without its `Storage` ending, when `v`
/// names a `torch` storage type.
fn storage_type_of<'a>(v: &Value<'a>) -> (r: Option<&'a str>)
    ensures
        r is Some <==> storage_type_ok(v@),
        r matches Some(x) ==> x@ == callee_names(v@)[1]->String_0.subrange(
            0,
            callee_names(v@)[1]->String_0.len() - 7,
        ),
{
    proof {
        reveal_strlit("Storage");
    }
    match v {
        Value::Global(t, _) => match &**t {
            Value::Sequence(k, xs) => {
                proof {
                    crate::value::lemma_nodes_of(xs@);
                    assert(*v@->Global_0 == (**t)@);
                    assert((**t)@ == Node::Sequence(*k, crate::value::nodes_of(xs@)));
                }
                if *k == crate::value::SequenceType::Tuple && xs.len() == 2 && text_is(
                    &xs[0],
                    "torch",
                ) {
                    match &xs[1] {
                        Value::String(name) => strip_suffix_of(name, "Storage"),
                        _ => None,
                    }
                } else {
                    None
                }
            },
            _ => {
                assert(*v@->Global_0 == (**t)@);
                None
            },
        },
        _ => None,
    }
}

/// The tensor that the dictionary item `item` (a key/value pair) of a
/// checkpoint describes: `Ok(None)` when its value is no tensor-rebuild
/// call, an error when the item, the call's arguments or its persistent id
/// do not have their expected shape.
pub fn tensor_entry<'b, 'a>(item: &'b Value<'a>) -> (r: Result<Option<TensorEntry<'a>>, TorchError>)
    ensures
        match rebuild_args(item@) {
            Err(e) => r matches Err(x) && x == e,
            Ok(None) => r matches Ok(None),
            Ok(Some(a)) => match entry_error(a) {
                Some(e) => r matches Err(x) && x == e,
                None => r matches Ok(Some(e)) && entry_matches(
                    e,
                    item@->Sequence_1[0]->String_0,
                    a,
                ),
            },
        },
{
    let kv = match item {
        Value::Sequence(k, kv) => {
            assert(item@ == Node::Sequence(*k, crate::value::nodes_of(kv@)));
            if *k != crate::value::SequenceType::Tuple || kv.len() != 2 {
                return Err(TorchError::BadItem);
            }
            kv
        },
        _ => return Err(TorchError::BadItem),
    };
    proof {
        crate::value::lemma_nodes_of(kv@);
    }
    let name = match &kv[0] {
        Value::String(s) => *s,
        _ => return Err(TorchError::KeyNotString),
    };
    let args = match &kv[1] {
        Value::Global(g, args) => {
            assert(kv@[1]@ == Node::Global(Box::new((**g)@), crate::value::nodes_of(args@)));
            if !is_named_call(&**g, "torch._utils", "_rebuild_tensor_v2") {
                return Ok(None);
            }
            args
        },
        _ => return Ok(None),
    };
    proof {
        crate::value::lemma_nodes_of(args@);
    }
    if args.len() != 1 {
        return Err(TorchError::BadRebuildArgs);
    }
    let a = match &args[0] {
        Value::Sequence(k, a) => {
            assert(args@[0]@ == Node::Sequence(*k, crate::value::nodes_of(a@)));
            if *k != crate::value::SequenceType::Tuple {
                return Err(TorchError::BadRebuildArgs);
            }
            a
        },
        _ => return Err(TorchError::BadRebuildArgs),
    };
    proof {
        crate::value::lemma_nodes_of(a@);
    }
    if a.len() < 5 {
        return Err(TorchError::BadRebuildArgs);
    }
    let pid = match &a[0] {
        Value::PersId(p) => {
            assert(a@[0]@ == Node::PersId(Box::new((**p)@)));
            &**p
        },
        _ => return Err(TorchError::BadRebuildArgs),
    };
    let offset = match &a[1] {
        Value::Int(n) => *n,
        _ => return Err(TorchError::BadRebuildArgs),
    };
    let shape_v = match &a[2] {
        Value::Sequence(k, xs) => {
            assert(a@[2]@ == Node::Sequence(*k, crate::value::nodes_of(xs@)));
            if *k != crate::value::SequenceType::Tuple {
                return Err(TorchError::BadRebuildArgs);
            }
            xs
        },
        _ => return Err(TorchError::BadRebuildArgs),
    };
    let stride_v = match &a[3] {
        Value::Sequence(k, xs) => {
            assert(a@[3]@ == Node::Sequence(*k, crate::value::nodes_of(xs@)));
            if *k != crate::value::SequenceType::Tuple {
                return Err(TorchError::BadRebuildArgs);
            }
            xs
        },
        _ => return Err(TorchError::BadRebuildArgs),
    };
    let grad = match &a[4] {
        Value::Bool(g) => *g,
        _ => return Err(TorchError::BadRebuildArgs),
    };
    let shape = match dims_of(shape_v) {
        Some(d) => d,
        None => return Err(TorchError::BadDims),
    };
    let stride = match dims_of(stride_v) {
        Some(d) => d,
        None => return Err(TorchError::BadDims),
    };
    let p = match pid {
        Value::Sequence(k, p) => {
            assert(pid@ == Node::Sequence(*k, crate::value::nodes_of(p@)));
            if *k != crate::value::SequenceType::Tuple || p.len() != 5 {
                return Err(TorchError::BadPersistentId);
            }
            p
        },
        _ => return Err(TorchError::BadPersistentId),
    };
    proof {
        crate::value::lemma_nodes_of(p@);
    }
    if !text_is(&p[0], "storage") {
        return Err(TorchError::BadPersistentId);
    }
    let key = match &p[2] {
        Value::String(s) => *s,
        _ => return Err(TorchError::BadPersistentId),
    };
    let device = match &p[3] {
        Value::String(s) => *s,
        _ => return Err(TorchError::BadPersistentId),
    };
    let storage_len = match &p[4] {
        Value::Int(n) => *n,
        _ => return Err(TorchError::BadPersistentId),
    };
    let storage_type = match storage_type_of(&p[1]) {
        Some(t) => t,
        None => return Err(TorchError::BadStorageType),
    };
    if offset < 0 || storage_len < 0 {
        return Err(TorchError::BadOffset);
    }
    Ok(
        Some(
            TensorEntry {
                name,
                device,
                storage_type,
                storage_key: key,
                storage_len: storage_len as u64,
                offset: offset as u64,
                shape,
                stride,
                requires_grad: grad,
            },
        ),
    )
}

/// Whether `t` is the element type that the storage type name `s` names.
pub open spec fn type_of_name(t: TensorType, s: Seq<char>) -> bool {
    match type_named(storage_name(s)) {
        Some(x) => t == x,
        None => t matches TensorType::Unknown(u) && u@ == storage_name(s),
    }
}

/// The element size of the storage type name `s`; 0 when it is unknown.
pub open spec fn size_of_name(s: Seq<char>) -> nat {
    match type_named(storage_name(s)) {
        Some(x) => type_size(x),
        None => 0,
    }
}

/// The tensor that `e` describes, given the archive member `storage` that
/// holds its storage and the offset `data_start` at which that member's
/// data begins in the archive file: the element offset becomes a byte
/// offset in the storage and in the file. Fails when either does not fit in
/// 64 bits.
pub fn place_tensor<'a>(e: TensorEntry<'a>, storage: String, data_start: u64) -> (r: Result<
    RepugnantTorchTensor,
    TorchError,
>)
    ensures
        match r {
            Ok(t) => {
                &&& t.name@ == e.name@
                &&& t.device@ == e.device@
                &&& type_of_name(t.tensor_type, e.storage_type@)
                &&& t.storage@ == storage@
                &&& t.storage_len == e.storage_len
                &&& t.storage_offset == e.offset * size_of_name(e.storage_type@)
                &&& t.absolute_offset == data_start + t.storage_offset
                &&& t.shape@ == e.shape@
                &&& t.stride@ == e.stride@
                &&& t.requires_grad == e.requires_grad
            },
            Err(x) => x == TorchError::BadOffset && (e.offset * size_of_name(e.storage_type@)
                > u64::MAX || data_start + e.offset * size_of_name(e.storage_type@) > u64::MAX),
        },
{
    let tensor_type = TensorType::from_name(e.storage_type);
    let size = tensor_type.size() as u64;
    assert(size == size_of_name(e.storage_type@));
    if size > 0 && e.offset > u64::MAX / size {
        assert(e.offset * size > u64::MAX) by (nonlinear_arith)
            requires size > 0, e.offset > u64::MAX / size;
        return Err(TorchError::BadOffset);
    }
    assert(e.offset * size <= u64::MAX) by (nonlinear_arith)
        requires size == 0 || e.offset <= u64::MAX / size;
    let bytes = e.offset * size;
    if bytes > u64::MAX - data_start {
        return Err(TorchError::BadOffset);
    }
    Ok(
        RepugnantTorchTensor {
            name: e.name.to_owned(),
            device: e.device.to_owned(),
            tensor_type,
            storage,
            storage_len: e.storage_len,
            storage_offset: bytes,
            absolute_offset: data_start + bytes,
            shape: e.shape,
            stride: e.stride,
            requires_grad: e.requires_grad,
        },
    )
}

} // verus!
