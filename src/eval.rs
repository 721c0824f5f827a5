use vstd::prelude::*;

use std::collections::BTreeMap;
use vstd::string::StringSliceAdditionalSpecFns;

use crate::ops::p_op;
use crate::ops::PickleOp;
use crate::value::{fix_node, fix_value, nodes_of, Node, SequenceType, Value};

verus! {

broadcast use crate::value::group_nodes, vstd::std_specs::btree::group_btree_axioms,
    vstd::laws_cmp::group_laws_cmp;

/// How many memo lookups one resolution makes at most, and how deep the
/// resolution of a whole tree descends.
pub const MAX_DEPTH: usize = 250;

/// The highest protocol version that evaluation accepts.
pub const MAX_PROTOCOL: u8 = 5;

/// Why evaluation failed.
#[derive(Debug, Clone, Copy, PartialEq, Eq, Structural)]
pub enum EvalError {
    /// A value was taken from an empty stack, or from below the stack's
    /// bottom.
    StackUnderflow,
    /// No mark is on the stack where one is needed.
    MissingMark,
    /// The instruction with opcode byte `tag` found neither a `Global` nor a
    /// `Sequence` to add to.
    BadStackTop { tag: u8 },
    /// The memo table holds no entry `id`.
    BadMemoId { id: u32 },
    /// The text of a memo instruction is no memo id.
    BadMemoText,
    /// The declared protocol is above the highest one supported.
    UnsupportedProtocol { proto: u8 },
    /// A dictionary was to be built from an odd number of keys and values.
    OddKeyValueList,
}

/// The model of an evaluation's state: its stack and its memo table.
pub struct EvalState<'a> {
    pub stack: Seq<Node<'a>>,
    pub memo: Map<u32, Node<'a>>,
}

/// The state before the first instruction.
pub open spec fn initial_state<'a>() -> EvalState<'a> {
    EvalState { stack: Seq::empty(), memo: Map::empty() }
}

/// Whether `v` is the mark.
pub open spec fn is_mark(v: Node) -> bool {
    v == Node::Raw(PickleOp::MARK)
}

/// The position of the last mark among the first `n` items of `s`.
pub open spec fn mark_below(s: Seq<Node>, n: int) -> Option<int>
    decreases n,
{
    if n <= 0 {
        None
    } else if is_mark(s[n - 1]) {
        Some(n - 1)
    } else {
        mark_below(s, n - 1)
    }
}

/// The position of the topmost mark on the stack `s`.
pub open spec fn last_mark(s: Seq<Node>) -> Option<int> {
    mark_below(s, s.len() as int)
}

/// A tuple of the given items.
pub open spec fn tuple<'a>(items: Seq<Node<'a>>) -> Node<'a> {
    Node::Sequence(SequenceType::Tuple, items)
}

/// Flat keys and values `k0, v0, k1, v1, ...` as pair tuples `(k0, v0), ...`.
pub open spec fn pairs<'a>(items: Seq<Node<'a>>) -> Seq<Node<'a>> {
    Seq::new(items.len() / 2, |i: int| tuple(seq![items[2 * i], items[2 * i + 1]]))
}

/// The value of the decimal digits `d`.
pub open spec fn digits_value(d: Seq<u8>) -> int
    decreases d.len(),
{
    if d.len() == 0 {
        0
    } else {
        digits_value(d.drop_last()) * 10 + (d.last() - 0x30)
    }
}

/// Whether every byte of `d` is a decimal digit.
pub open spec fn all_digits(d: Seq<u8>) -> bool {
    forall|i: int| 0 <= i < d.len() ==> 0x30 <= #[trigger] d[i] <= 0x39
}

/// The memo id that the text `t` writes in decimal (an optional `+`, then
/// digits), when it fits in a `u32`.
pub open spec fn decimal_u32(t: Seq<u8>) -> Option<u32> {
    let d = if t.len() > 0 && t[0] == 0x2b {
        t.drop_first()
    } else {
        t
    };
    if d.len() > 0 && all_digits(d) && digits_value(d) <= u32::MAX {
        Some(digits_value(d) as u32)
    } else {
        None
    }
}

/// Resolution of `v` through the memo table with at most `n` (at least one)
/// lookups: a reference is replaced by the entry it names until a value that
/// is no reference comes, or the lookups are spent.
pub open spec fn resolve_node<'a>(memo: Map<u32, Node<'a>>, v: Node<'a>, n: nat) -> Result<
    Node<'a>,
    EvalError,
>
    decreases n,
{
    match v {
        Node::Ref(id) => if !memo.contains_key(id) {
            Err(EvalError::BadMemoId { id })
        } else if n <= 1 {
            Ok(memo[id])
        } else {
            resolve_node(memo, memo[id], (n - 1) as nat)
        },
        _ => Ok(v),
    }
}

/// The number of lookups that a resolution makes at most.
pub open spec fn lookups(recursive: bool) -> nat {
    if recursive {
        MAX_DEPTH as nat
    } else {
        1
    }
}

/// The memo entry that a chain of references from entry `id` ends at, with at
/// most `n` further hops.
pub open spec fn chase<'a>(memo: Map<u32, Node<'a>>, id: u32, n: nat) -> Result<u32, EvalError>
    decreases n,
{
    if !memo.contains_key(id) {
        Err(EvalError::BadMemoId { id })
    } else if n == 0 {
        Ok(id)
    } else {
        match memo[id] {
            Node::Ref(next) => chase(memo, next, (n - 1) as nat),
            _ => Ok(id),
        }
    }
}

/// Where the value that `v` stands for is stored: `None` for `v` itself,
/// `Some(id)` for the memo entry `id`.
pub open spec fn target_slot<'a>(memo: Map<u32, Node<'a>>, v: Node<'a>, recursive: bool) -> Result<
    Option<u32>,
    EvalError,
> {
    match v {
        Node::Ref(id) => match chase(memo, id, lookups(recursive)) {
            Ok(t) => Ok(Some(t)),
            Err(e) => Err(e),
        },
        _ => Ok(None),
    }
}

/// `t` with `items` added to its arguments; `None` when `t` is neither a
/// `Global` nor a `Sequence`.
pub open spec fn extended<'a>(t: Node<'a>, items: Seq<Node<'a>>) -> Option<Node<'a>> {
    match t {
        Node::Global(g, args) => Some(Node::Global(g, args + items)),
        Node::Sequence(k, args) => Some(Node::Sequence(k, args + items)),
        _ => None,
    }
}

/// Adds `items` to the collection that the top of `stack` stands for, in
/// place: in the stack itself, or in the memo entry a reference chain leads
/// to.
pub open spec fn add_to_top<'a>(
    stack: Seq<Node<'a>>,
    memo: Map<u32, Node<'a>>,
    items: Seq<Node<'a>>,
    tag: u8,
) -> Result<EvalState<'a>, EvalError> {
    if stack.len() == 0 {
        Err(EvalError::StackUnderflow)
    } else {
        match target_slot(memo, stack.last(), true) {
            Err(e) => Err(e),
            Ok(None) => match extended(stack.last(), items) {
                Some(t) => Ok(EvalState { stack: stack.drop_last().push(t), memo }),
                None => Err(EvalError::BadStackTop { tag }),
            },
            Ok(Some(id)) => match extended(memo[id], items) {
                Some(t) => Ok(EvalState { stack, memo: memo.insert(id, t) }),
                None => Err(EvalError::BadStackTop { tag }),
            },
        }
    }
}

/// Pushes `v`.
pub open spec fn pushed<'a>(st: EvalState<'a>, v: Node<'a>) -> Result<EvalState<'a>, EvalError> {
    Ok(EvalState { stack: st.stack.push(v), memo: st.memo })
}

/// Replaces the top `k` items with `v`.
pub open spec fn replaced<'a>(st: EvalState<'a>, k: int, v: Node<'a>) -> Result<
    EvalState<'a>,
    EvalError,
> {
    if st.stack.len() < k {
        Err(EvalError::StackUnderflow)
    } else {
        Ok(EvalState { stack: st.stack.take(st.stack.len() - k).push(v), memo: st.memo })
    }
}

/// The `i`-th item from the top (0 for the top).
pub open spec fn from_top<'a>(st: EvalState<'a>, i: int) -> Node<'a> {
    st.stack[st.stack.len() - 1 - i]
}

/// Replaces everything from the topmost mark up with `f` applied to the
/// items above the mark.
pub open spec fn from_mark<'a>(st: EvalState<'a>, f: spec_fn(Seq<Node<'a>>) -> Node<'a>) -> Result<
    EvalState<'a>,
    EvalError,
> {
    match last_mark(st.stack) {
        None => Err(EvalError::MissingMark),
        Some(m) => Ok(
            EvalState {
                stack: st.stack.take(m).push(f(st.stack.subrange(m + 1, st.stack.len() as int))),
                memo: st.memo,
            },
        ),
    }
}

/// Pops the top into memo entry `id` and pushes a reference to it.
pub open spec fn stored<'a>(st: EvalState<'a>, id: u32) -> Result<EvalState<'a>, EvalError> {
    if st.stack.len() == 0 {
        Err(EvalError::StackUnderflow)
    } else {
        Ok(
            EvalState {
                stack: st.stack.drop_last().push(Node::Ref(id)),
                memo: st.memo.insert(id, st.stack.last()),
            },
        )
    }
}

/// Pops two values, resolves each through the memo table (the top first)
/// and pushes `f(below, top)`.
pub open spec fn resolved_pair<'a>(
    st: EvalState<'a>,
    f: spec_fn(Node<'a>, Node<'a>) -> Node<'a>,
) -> Result<EvalState<'a>, EvalError> {
    if st.stack.len() < 1 {
        Err(EvalError::StackUnderflow)
    } else {
        match resolve_node(st.memo, from_top(st, 0), MAX_DEPTH as nat) {
            Err(e) => Err(e),
            Ok(top) => if st.stack.len() < 2 {
                Err(EvalError::StackUnderflow)
            } else {
                match resolve_node(st.memo, from_top(st, 1), MAX_DEPTH as nat) {
                    Err(e) => Err(e),
                    Ok(below) => replaced(st, 2, f(below, top)),
                }
            },
        }
    }
}

/// Applies a mutating instruction that takes the items above the topmost
/// mark: `SETITEMS` when `kv`, else `APPENDS` or `ADDITEMS`.
pub open spec fn add_from_mark<'a>(st: EvalState<'a>, tag: u8, kv: bool) -> Result<
    EvalState<'a>,
    EvalError,
> {
    match last_mark(st.stack) {
        None => Err(EvalError::MissingMark),
        Some(m) => {
            let items = st.stack.subrange(m + 1, st.stack.len() as int);
            if kv && items.len() % 2 != 0 {
                Err(EvalError::OddKeyValueList)
            } else {
                add_to_top(
                    st.stack.take(m),
                    st.memo,
                    if kv {
                        pairs(items)
                    } else {
                        items
                    },
                    tag,
                )
            }
        }
    }
}

/// One instruction other than `STOP`, run on the state `st`.
pub open spec fn step<'a>(st: EvalState<'a>, op: PickleOp<'a>) -> Result<EvalState<'a>, EvalError> {
    let n = st.stack.len();
    match op {
        PickleOp::POP => if n == 0 {
            Err(EvalError::StackUnderflow)
        } else {
            Ok(EvalState { stack: st.stack.drop_last(), memo: st.memo })
        },
        PickleOp::POP_MARK => match last_mark(st.stack) {
            None => Err(EvalError::MissingMark),
            Some(m) => Ok(EvalState { stack: st.stack.take(m), memo: st.memo }),
        },
        PickleOp::DUP => if n == 0 {
            Err(EvalError::StackUnderflow)
        } else {
            pushed(st, st.stack.last())
        },
        PickleOp::PERSID(pid) => pushed(st, Node::PersId(Box::new(Node::String(pid@)))),
        PickleOp::BINPERSID => replaced(st, 1, Node::PersId(Box::new(from_top(st, 0)))),
        PickleOp::REDUCE => resolved_pair(
            st,
            |target: Node<'a>, args: Node<'a>| Node::Global(Box::new(target), seq![args]),
        ),
        PickleOp::BUILD => resolved_pair(
            st,
            |target: Node<'a>, args: Node<'a>| Node::Build(Box::new(target), Box::new(args)),
        ),
        PickleOp::STACK_GLOBAL => resolved_pair(
            st,
            |module: Node<'a>, name: Node<'a>|
                Node::Global(Box::new(tuple(seq![module, name])), Seq::empty()),
        ),
        PickleOp::GLOBAL(module, name) => pushed(
            st,
            Node::Global(
                Box::new(tuple(seq![Node::String(module@), Node::String(name@)])),
                Seq::empty(),
            ),
        ),
        PickleOp::EMPTY_DICT => pushed(st, Node::Sequence(SequenceType::Dict, Seq::empty())),
        PickleOp::EMPTY_LIST => pushed(st, Node::Sequence(SequenceType::List, Seq::empty())),
        PickleOp::EMPTY_TUPLE => pushed(st, tuple(Seq::empty())),
        PickleOp::EMPTY_SET => pushed(st, Node::Sequence(SequenceType::MutableSet, Seq::empty())),
        PickleOp::GET(text) => match decimal_u32(text.spec_bytes()) {
            None => Err(EvalError::BadMemoText),
            Some(id) => pushed(st, Node::Ref(id)),
        },
        PickleOp::BINGET(id) => pushed(st, Node::Ref(id as u32)),
        PickleOp::LONG_BINGET(id) => pushed(st, Node::Ref(id)),
        PickleOp::PUT(text) => match decimal_u32(text.spec_bytes()) {
            None => Err(EvalError::BadMemoText),
            Some(id) => stored(st, id),
        },
        PickleOp::BINPUT(id) => stored(st, id as u32),
        PickleOp::LONG_BINPUT(id) => stored(st, id),
        PickleOp::MEMOIZE => if n == 0 {
            Err(EvalError::StackUnderflow)
        } else {
            Ok(
                EvalState {
                    stack: st.stack,
                    memo: st.memo.insert(st.memo.len() as u32, st.stack.last()),
                },
            )
        },
        PickleOp::TUPLE => from_mark(st, |items: Seq<Node<'a>>| tuple(items)),
        PickleOp::LIST => from_mark(
            st,
            |items: Seq<Node<'a>>| Node::Sequence(SequenceType::List, items),
        ),
        PickleOp::FROZENSET => from_mark(
            st,
            |items: Seq<Node<'a>>| Node::Sequence(SequenceType::FrozenSet, items),
        ),
        PickleOp::DICT => match last_mark(st.stack) {
            None => Err(EvalError::MissingMark),
            Some(m) => if (n - (m + 1)) % 2 != 0 {
                Err(EvalError::OddKeyValueList)
            } else {
                from_mark(
                    st,
                    |items: Seq<Node<'a>>| Node::Sequence(SequenceType::Dict, pairs(items)),
                )
            },
        },
        PickleOp::INST(module, class) => from_mark(
            st,
            |items: Seq<Node<'a>>|
                Node::Object(
                    Box::new(tuple(seq![Node::String(module@), Node::String(class@)])),
                    items,
                ),
        ),
        PickleOp::OBJ => match last_mark(st.stack) {
            None => Err(EvalError::MissingMark),
            Some(m) => if m + 1 >= n {
                Err(EvalError::StackUnderflow)
            } else {
                Ok(
                    EvalState {
                        stack: st.stack.take(m).push(
                            Node::Object(
                                Box::new(st.stack[m + 1]),
                                st.stack.subrange(m + 2, n as int),
                            ),
                        ),
                        memo: st.memo,
                    },
                )
            },
        },
        PickleOp::PROTO(proto) => if proto > MAX_PROTOCOL {
            Err(EvalError::UnsupportedProtocol { proto })
        } else {
            Ok(st)
        },
        PickleOp::TUPLE1 => replaced(st, 1, tuple(seq![from_top(st, 0)])),
        PickleOp::TUPLE2 => replaced(st, 2, tuple(seq![from_top(st, 1), from_top(st, 0)])),
        PickleOp::TUPLE3 => replaced(
            st,
            3,
            tuple(seq![from_top(st, 2), from_top(st, 1), from_top(st, 0)]),
        ),
        PickleOp::NEWOBJ => replaced(
            st,
            2,
            Node::Object(Box::new(from_top(st, 1)), seq![from_top(st, 0)]),
        ),
        PickleOp::NEWOBJ_EX => replaced(
            st,
            3,
            Node::Object(
                Box::new(from_top(st, 2)),
                seq![tuple(seq![from_top(st, 1), from_top(st, 0)])],
            ),
        ),
        PickleOp::SETITEM => if n < 2 {
            Err(EvalError::StackUnderflow)
        } else {
            add_to_top(
                st.stack.take(n - 2),
                st.memo,
                seq![tuple(seq![from_top(st, 1), from_top(st, 0)])],
                p_op::SETITEM,
            )
        },
        PickleOp::SETITEMS => add_from_mark(st, p_op::SETITEMS, true),
        PickleOp::APPEND => if n < 1 {
            Err(EvalError::StackUnderflow)
        } else {
            add_to_top(st.stack.drop_last(), st.memo, seq![st.stack.last()], p_op::APPEND)
        },
        PickleOp::APPENDS => add_from_mark(st, p_op::APPENDS, false),
        PickleOp::ADDITEMS => add_from_mark(st, p_op::ADDITEMS, false),
        _ => pushed(st, Node::Raw(op)),
    }
}

/// The state after running all of `ops`, none of which is `STOP`.
pub open spec fn run<'a>(ops: Seq<PickleOp<'a>>) -> Result<EvalState<'a>, EvalError>
    decreases ops.len(),
{
    if ops.len() == 0 {
        Ok(initial_state())
    } else {
        match run(ops.drop_last()) {
            Ok(st) => step(st, ops.last()),
            Err(e) => Err(e),
        }
    }
}

/// Whether `i` is the position of the first `STOP` in `ops`.
pub open spec fn first_stop(ops: Seq<PickleOp>, i: int) -> bool {
    &&& 0 <= i < ops.len()
    &&& ops[i] is STOP
    &&& forall|j: int| 0 <= j < i ==> !(ops[j] is STOP)
}

/// How many instructions run: those before the first `STOP`, or all.
pub open spec fn stop_at(ops: Seq<PickleOp>) -> int {
    if exists|i: int| first_stop(ops, i) {
        choose|i: int| first_stop(ops, i)
    } else {
        ops.len() as int
    }
}

/// The state after evaluating `ops`: they run in order up to the first
/// `STOP`.
pub open spec fn evaluation<'a>(ops: Seq<PickleOp<'a>>) -> Result<EvalState<'a>, EvalError> {
    run(ops.take(stop_at(ops)))
}

/// The full resolution of `v` at recursion depth `depth`: every reference in
/// the tree is resolved, and with `fix` every node normalized, down to the
/// depth bound, below which the tree is left as it is.
pub open spec fn resolved<'a>(memo: Map<u32, Node<'a>>, depth: int, v: Node<'a>, fix: bool) -> Result<
    Node<'a>,
    EvalError,
>
    decreases MAX_DEPTH - depth, 0int,
{
    if depth >= MAX_DEPTH {
        Ok(v)
    } else {
        let out = match v {
            Node::Ref(_) => match resolve_node(memo, v, MAX_DEPTH as nat) {
                Ok(t) => resolved(memo, depth + 1, t, fix),
                Err(e) => Err(e),
            },
            Node::App(f, xs) => match resolved(memo, depth + 1, *f, fix) {
                Err(e) => Err(e),
                Ok(f2) => match resolved_all(memo, depth + 1, xs, fix) {
                    Err(e) => Err(e),
                    Ok(xs2) => Ok(Node::App(Box::new(f2), xs2)),
                },
            },
            Node::Object(c, xs) => match resolved(memo, depth + 1, *c, fix) {
                Err(e) => Err(e),
                Ok(c2) => match resolved_all(memo, depth + 1, xs, fix) {
                    Err(e) => Err(e),
                    Ok(xs2) => Ok(Node::Object(Box::new(c2), xs2)),
                },
            },
            Node::Global(g, xs) => match resolved(memo, depth + 1, *g, fix) {
                Err(e) => Err(e),
                Ok(g2) => match resolved_all(memo, depth + 1, xs, fix) {
                    Err(e) => Err(e),
                    Ok(xs2) => Ok(Node::Global(Box::new(g2), xs2)),
                },
            },
            Node::Build(t, s) => match resolved(memo, depth + 1, *t, fix) {
                Err(e) => Err(e),
                Ok(t2) => match resolved(memo, depth + 1, *s, fix) {
                    Err(e) => Err(e),
                    Ok(s2) => Ok(Node::Build(Box::new(t2), Box::new(s2))),
                },
            },
            Node::PersId(p) => match resolved(memo, depth + 1, *p, fix) {
                Err(e) => Err(e),
                Ok(inner) => Ok(Node::PersId(Box::new(inner))),
            },
            Node::Sequence(k, xs) => match resolved_all(memo, depth + 1, xs, fix) {
                Err(e) => Err(e),
                Ok(xs2) => Ok(Node::Sequence(k, xs2)),
            },
            _ => Ok(v),
        };
        if fix {
            match out {
                Ok(o) => Ok(fix_node(o)),
                Err(e) => Err(e),
            }
        } else {
            out
        }
    }
}

/// The full resolution of each of `xs` at depth `depth + 1`, left as they
/// are at the depth bound; the first failure in order is the result.
pub open spec fn resolved_all<'a>(
    memo: Map<u32, Node<'a>>,
    depth: int,
    xs: Seq<Node<'a>>,
    fix: bool,
) -> Result<Seq<Node<'a>>, EvalError>
    decreases MAX_DEPTH - depth, xs.len() + 1,
{
    if depth >= MAX_DEPTH {
        Ok(xs)
    } else {
        resolved_prefix(memo, depth, xs, xs.len(), fix)
    }
}

/// The full resolution of the first `n` of `xs` at depth `depth + 1`.
pub open spec fn resolved_prefix<'a>(
    memo: Map<u32, Node<'a>>,
    depth: int,
    xs: Seq<Node<'a>>,
    n: nat,
    fix: bool,
) -> Result<Seq<Node<'a>>, EvalError>
    decreases MAX_DEPTH - depth, n,
{
    if depth >= MAX_DEPTH || n == 0 {
        Ok(Seq::empty())
    } else {
        match resolved_prefix(memo, depth, xs, (n - 1) as nat, fix) {
            Err(e) => Err(e),
            Ok(ys) => match resolved(memo, depth + 1, xs[n - 1], fix) {
                Err(e) => Err(e),
                Ok(y) => Ok(ys.push(y)),
            },
        }
    }
}

/// The evaluation state with the given stack and memo table.
pub open spec fn state<'a>(stack: Seq<Node<'a>>, memo: Map<u32, Node<'a>>) -> EvalState<'a> {
    EvalState { stack, memo }
}

proof fn lemma_chase_contains<'a>(memo: Map<u32, Node<'a>>, id: u32, n: nat)
    ensures
        chase(memo, id, n) matches Ok(t) ==> memo.contains_key(t),
    decreases n,
{
    if memo.contains_key(id) && n > 0 {
        if let Node::Ref(next) = memo[id] {
            lemma_chase_contains(memo, next, (n - 1) as nat);
        }
    }
}

proof fn lemma_run_error_persists<'a>(ops: Seq<PickleOp<'a>>, i: int, k: int)
    requires
        0 <= i <= k <= ops.len(),
        run(ops.take(i)) is Err,
    ensures
        run(ops.take(k)) == run(ops.take(i)),
    decreases k - i,
{
    if k > i {
        lemma_run_error_persists(ops, i, k - 1);
        assert(ops.take(k).drop_last() =~= ops.take(k - 1));
    }
}

proof fn lemma_stop_at(ops: Seq<PickleOp>, i: int)
    requires
        0 <= i <= ops.len(),
        forall|j: int| 0 <= j < i ==> !(ops[j] is STOP),
        i == ops.len() || ops[i] is STOP,
    ensures
        stop_at(ops) == i,
{
    if i < ops.len() {
        assert(first_stop(ops, i));
        let c = choose|c: int| first_stop(ops, c);
        if c < i {
            assert(!(ops[c] is STOP));
        }
        if c > i {
            assert(!(ops[i] is STOP));
        }
    } else {
        assert forall|c: int| !first_stop(ops, c) by {
            if 0 <= c < ops.len() {
                assert(!(ops[c] is STOP));
            }
        }
    }
}

proof fn lemma_stop_after(ops: Seq<PickleOp>, i: int)
    requires
        0 <= i < ops.len(),
        forall|j: int| 0 <= j <= i ==> !(ops[j] is STOP),
    ensures
        i < stop_at(ops) <= ops.len(),
{
    if exists|c: int| first_stop(ops, c) {
        let c = choose|c: int| first_stop(ops, c);
        if c <= i {
            assert(!(ops[c] is STOP));
        }
    }
}

proof fn lemma_prefix_error_persists<'a>(
    memo: Map<u32, Node<'a>>,
    depth: int,
    xs: Seq<Node<'a>>,
    i: nat,
    k: nat,
    fix: bool,
)
    requires
        i <= k,
        resolved_prefix(memo, depth, xs, i, fix) is Err,
    ensures
        resolved_prefix(memo, depth, xs, k, fix) == resolved_prefix(memo, depth, xs, i, fix),
    decreases k - i,
{
    if k > i {
        lemma_prefix_error_persists(memo, depth, xs, i, (k - 1) as nat, fix);
    }
}

proof fn lemma_digits_nonneg(d: Seq<u8>)
    requires
        all_digits(d),
    ensures
        digits_value(d) >= 0,
    decreases d.len(),
{
    if d.len() > 0 {
        assert(all_digits(d.drop_last()));
        lemma_digits_nonneg(d.drop_last());
    }
}

proof fn lemma_digits_grow(d: Seq<u8>, k: int)
    requires
        all_digits(d),
        0 <= k <= d.len(),
    ensures
        digits_value(d.take(k)) <= digits_value(d),
    decreases d.len() - k,
{
    if k < d.len() {
        lemma_digits_grow(d, k + 1);
        assert(d.take(k + 1).drop_last() =~= d.take(k));
        assert(all_digits(d.take(k)));
        lemma_digits_nonneg(d.take(k));
    } else {
        assert(d.take(k) =~= d);
    }
}

/// The memo id that `text` writes in decimal.
fn memo_id(text: &str) -> (r: Result<u32, EvalError>)
    ensures
        match decimal_u32(text.spec_bytes()) {
            Some(id) => r == Ok::<u32, EvalError>(id),
            None => r == Err::<u32, EvalError>(EvalError::BadMemoText),
        },
{
    let t = text.as_bytes();
    let start: usize = if t.len() > 0 && t[0] == 0x2b {
        1
    } else {
        0
    };
    let ghost d = if t@.len() > 0 && t@[0] == 0x2b {
        t@.drop_first()
    } else {
        t@
    };
    assert(d =~= t@.subrange(start as int, t@.len() as int));
    if start >= t.len() {
        assert(d.len() == 0);
        return Err(EvalError::BadMemoText);
    }
    let mut acc: u64 = 0;
    let mut i: usize = start;
    while i < t.len()
        invariant
            start <= i <= t@.len(),
            d == t@.subrange(start as int, t@.len() as int),
            d.take(i - start) == t@.subrange(start as int, i as int),
            t@ == text.spec_bytes(),
            d == (if t@.len() > 0 && t@[0] == 0x2b {
                t@.drop_first()
            } else {
                t@
            }),
            acc == digits_value(t@.subrange(start as int, i as int)),
            acc <= u32::MAX,
            all_digits(t@.subrange(start as int, i as int)),
        decreases t@.len() - i,
    {
        let c = t[i];
        if c < 0x30 || c > 0x39 {
            assert(d[i - start] == c);
            return Err(EvalError::BadMemoText);
        }
        assert(t@.subrange(start as int, i + 1).drop_last() =~= t@.subrange(start as int, i as int));
        acc = acc * 10 + (c - 0x30) as u64;
        assert(t@.subrange(start as int, i + 1).last() == c);
        assert(acc == digits_value(t@.subrange(start as int, i + 1)));
        assert(all_digits(t@.subrange(start as int, i + 1)));
        if acc > u32::MAX as u64 {
            proof {
                assert(d.take(i + 1 - start) =~= t@.subrange(start as int, i + 1));
                if all_digits(d) {
                    lemma_digits_grow(d, i + 1 - start);
                    assert(digits_value(d) > u32::MAX);
                }
            }
            return Err(EvalError::BadMemoText);
        }
        i = i + 1;
        assert(d.take(i - start) =~= t@.subrange(start as int, i as int));
    }
    Ok(acc as u32)
}

/// The values of `v` in reverse order.
fn reversed<'a>(v: Vec<Value<'a>>) -> (r: Vec<Value<'a>>)
    ensures
        r@.len() == v@.len(),
        forall|j: int| 0 <= j < v@.len() ==> #[trigger] r@[j] == v@[v@.len() - 1 - j],
{
    let ghost orig = v@;
    let mut v = v;
    let mut r: Vec<Value<'a>> = Vec::new();
    while v.len() > 0
        invariant
            v@ == orig.take(v@.len() as int),
            r@.len() + v@.len() == orig.len(),
            forall|j: int| 0 <= j < r@.len() ==> #[trigger] r@[j] == orig[orig.len() - 1 - j],
        decreases v@.len(),
    {
        let ghost before = v@;
        match v.pop() {
            Some(x) => {
                r.push(x);
            },
            None => {},
        }
        assert(v@ =~= orig.take(v@.len() as int));
    }
    r
}

/// The operand stack of an evaluation.
#[derive(Debug)]
pub struct PickleStack<'a>(pub Vec<Value<'a>>);

impl<'a> View for PickleStack<'a> {
    type V = Seq<Node<'a>>;

    open spec fn view(&self) -> Seq<Node<'a>> {
        nodes_of(self.0@)
    }
}

impl<'a> PickleStack<'a> {
    /// An empty stack.
    pub fn new() -> (r: Self)
        ensures
            r@ == Seq::<Node<'a>>::empty(),
    {
        let r = PickleStack(Vec::new());
        assert(r@ =~= Seq::<Node<'a>>::empty());
        r
    }

    /// Pushes `v`.
    pub fn push(&mut self, v: Value<'a>)
        ensures
            final(self)@ == old(self)@.push(v@),
    {
        self.0.push(v);
    }

    /// Removes and returns the top value.
    pub fn pop(&mut self) -> (r: Result<Value<'a>, EvalError>)
        ensures
            match r {
                Ok(v) => {
                    &&& old(self)@.len() > 0
                    &&& v@ == old(self)@.last()
                    &&& final(self)@ == old(self)@.drop_last()
                },
                Err(e) => old(self)@.len() == 0 && e == EvalError::StackUnderflow && final(self)@
                    == old(self)@,
            },
    {
        let ghost before = self.0@;
        match self.0.pop() {
            Some(v) => {
                assert(before == self.0@.push(v));
                assert(self.0@ =~= before.subrange(0, before.len() - 1));
                Ok(v)
            },
            None => Err(EvalError::StackUnderflow),
        }
    }

    /// The position of the topmost mark.
    pub fn find_mark(&self) -> (r: Result<usize, EvalError>)
        ensures
            match r {
                Ok(m) => last_mark(self@) == Some(m as int) && m < self@.len(),
                Err(e) => last_mark(self@) is None && e == EvalError::MissingMark,
            },
    {
        let mut i: usize = self.0.len();
        while i > 0
            invariant
                i <= self.0@.len(),
                last_mark(self@) == mark_below(self@, i as int),
            decreases i,
        {
            if matches!(self.0[i - 1], Value::Raw(PickleOp::MARK)) {
                assert(is_mark(self@[i - 1]));
                return Ok(i - 1);
            }
            assert(!is_mark(self@[i - 1]));
            i = i - 1;
        }
        Err(EvalError::MissingMark)
    }

    /// Removes the topmost mark and everything above it; returns what was
    /// above it, in order.
    pub fn pop_mark(&mut self) -> (r: Result<Vec<Value<'a>>, EvalError>)
        ensures
            match r {
                Ok(items) => last_mark(old(self)@) matches Some(m) && 0 <= m < old(self)@.len()
                    && nodes_of(items@) == old(self)@.subrange(m + 1, old(self)@.len() as int)
                    && final(self)@ == old(self)@.take(m),
                Err(e) => last_mark(old(self)@) is None && e == EvalError::MissingMark
                    && final(self)@ == old(self)@,
            },
    {
        let len = self.0.len();
        let m = self.find_mark()?;
        let ghost before = self.0@;
        let items = self.0.split_off(m + 1);
        self.0.truncate(m);
        assert(self.0@ =~= before.take(m as int));
        Ok(items)
    }
}

/// The memo table of an evaluation.
#[derive(Debug)]
pub struct PickleMemo<'a>(pub BTreeMap<u32, Value<'a>>);

impl<'a> View for PickleMemo<'a> {
    type V = Map<u32, Node<'a>>;

    open spec fn view(&self) -> Map<u32, Node<'a>> {
        self.0@.map_values(|v: Value<'a>| v@)
    }
}

impl<'a> PickleMemo<'a> {
    /// An empty memo table.
    pub fn new() -> (r: Self)
        ensures
            r@ == Map::<u32, Node<'a>>::empty(),
    {
        let r = PickleMemo(BTreeMap::new());
        assert(r@ =~= Map::<u32, Node<'a>>::empty());
        r
    }

    /// Stores `val` as entry `mid`, in place of an earlier one.
    pub fn insert(&mut self, mid: u32, val: Value<'a>)
        ensures
            final(self)@ == old(self)@.insert(mid, val@),
    {
        let ghost v = val@;
        self.0.insert(mid, val);
        assert(self@ =~= old(self)@.insert(mid, v));
    }

    /// The number of entries.
    pub fn len(&self) -> (r: usize)
        ensures
            r == self@.len(),
    {
        assert(self@.dom() =~= self.0@.dom());
        self.0.len()
    }

    /// Resolves `op` through the memo table: while it is a reference, it is
    /// replaced by the entry it names, at most once unless `recursive`, and at
    /// most `MAX_DEPTH` times. Nothing inside other values is looked at.
    pub fn resolve(&self, op: Value<'a>, recursive: bool) -> (r: Result<Value<'a>, EvalError>)
        ensures
            match r {
                Ok(v) => resolve_node(self@, op@, lookups(recursive)) == Ok::<Node<'a>, EvalError>(
                    v@,
                ),
                Err(e) => resolve_node(self@, op@, lookups(recursive)) == Err::<Node<'a>, EvalError>(
                    e,
                ),
            },
    {
        let n: usize = if recursive {
            MAX_DEPTH
        } else {
            1
        };
        let mut cur = op;
        let mut count: usize = 0;
        while count < n
            invariant
                n == lookups(recursive),
                count < n,
                resolve_node(self@, op@, n as nat) == resolve_node(self@, cur@, (n - count) as nat),
            decreases n - count,
        {
            let mid = match &cur {
                Value::Ref(mid) => *mid,
                _ => return Ok(cur),
            };
            match self.0.get(&mid) {
                None => return Err(EvalError::BadMemoId { id: mid }),
                Some(v) => {
                    cur = v.clone();
                    count = count + 1;
                    if count >= n {
                        return Ok(cur);
                    }
                },
            }
        }
        Ok(cur)
    }

    /// Where the value that `op` stands for is stored, so that it can be
    /// changed in place: `None` for `op` itself (it is no reference), or
    /// `Some(id)` for the memo entry that its chain of references leads to,
    /// following at most one hop unless `recursive`, and at most `MAX_DEPTH`.
    pub fn resolve_mut(&self, op: &Value<'a>, recursive: bool) -> (r: Result<Option<u32>, EvalError>)
        ensures
            r == target_slot(self@, op@, recursive),
    {
        let first = match op {
            Value::Ref(mid) => *mid,
            _ => return Ok(None),
        };
        let mut left: usize = if recursive {
            MAX_DEPTH
        } else {
            1
        };
        let mut cur = first;
        loop
            invariant
                op@ == Node::<'a>::Ref(first),
                chase(self@, first, lookups(recursive)) == chase(self@, cur, left as nat),
            decreases left,
        {
            match self.0.get(&cur) {
                None => return Err(EvalError::BadMemoId { id: cur }),
                Some(v) => {
                    if left == 0 {
                        return Ok(Some(cur));
                    }
                    match v {
                        Value::Ref(next) => {
                            cur = *next;
                            left = left - 1;
                        },
                        _ => return Ok(Some(cur)),
                    }
                },
            }
        }
    }

    /// Resolves every reference in the tree `val` and, with `fix_values`,
    /// normalizes every node, descending from recursion depth `depth`; at
    /// depth `MAX_DEPTH` a subtree is returned as it is.
    pub fn resolve_all_refs(&self, depth: usize, val: Value<'a>, fix_values: bool) -> (r: Result<
        Value<'a>,
        EvalError,
    >)
        ensures
            match r {
                Ok(v) => resolved(self@, depth as int, val@, fix_values) == Ok::<
                    Node<'a>,
                    EvalError,
                >(v@),
                Err(e) => resolved(self@, depth as int, val@, fix_values) == Err::<
                    Node<'a>,
                    EvalError,
                >(e),
            },
        decreases MAX_DEPTH - depth, 0int,
    {
        if depth >= MAX_DEPTH {
            return Ok(val);
        }
        let output = match val {
            Value::Ref(id) => {
                let t = self.resolve(Value::Ref(id), true)?;
                self.resolve_all_refs(depth + 1, t, fix_values)?
            },
            Value::App(f, xs) => {
                let f2 = self.resolve_all_refs(depth + 1, *f, fix_values)?;
                Value::App(Box::new(f2), self.resolve_all_refs_iter(depth + 1, xs, fix_values)?)
            },
            Value::Object(c, xs) => {
                let c2 = self.resolve_all_refs(depth + 1, *c, fix_values)?;
                Value::Object(Box::new(c2), self.resolve_all_refs_iter(depth + 1, xs, fix_values)?)
            },
            Value::Global(g, xs) => {
                let g2 = self.resolve_all_refs(depth + 1, *g, fix_values)?;
                Value::Global(Box::new(g2), self.resolve_all_refs_iter(depth + 1, xs, fix_values)?)
            },
            Value::Build(t, s) => {
                let t2 = self.resolve_all_refs(depth + 1, *t, fix_values)?;
                let s2 = self.resolve_all_refs(depth + 1, *s, fix_values)?;
                Value::Build(Box::new(t2), Box::new(s2))
            },
            Value::PersId(p) => Value::PersId(
                Box::new(self.resolve_all_refs(depth + 1, *p, fix_values)?),
            ),
            Value::Sequence(k, xs) => Value::Sequence(
                k,
                self.resolve_all_refs_iter(depth + 1, xs, fix_values)?,
            ),
            other => other,
        };
        if fix_values {
            Ok(fix_value(output))
        } else {
            Ok(output)
        }
    }

    /// Resolves each of `vals` as `resolve_all_refs` does at depth
    /// `depth + 1`; at depth `MAX_DEPTH` they are returned as they are.
    pub fn resolve_all_refs_iter(&self, depth: usize, vals: Vec<Value<'a>>, fix_values: bool) -> (r:
        Result<Vec<Value<'a>>, EvalError>)
        ensures
            match r {
                Ok(vs) => resolved_all(self@, depth as int, nodes_of(vals@), fix_values) == Ok::<
                    Seq<Node<'a>>,
                    EvalError,
                >(nodes_of(vs@)),
                Err(e) => resolved_all(self@, depth as int, nodes_of(vals@), fix_values) == Err::<
                    Seq<Node<'a>>,
                    EvalError,
                >(e),
            },
        decreases MAX_DEPTH - depth, 1int,
    {
        if depth >= MAX_DEPTH {
            return Ok(vals);
        }
        let ghost xs = nodes_of(vals@);
        let n = vals.len();
        let mut rest = reversed(vals);
        let mut out: Vec<Value<'a>> = Vec::new();
        let mut i: usize = 0;
        while i < n
            invariant
                xs == nodes_of(vals@),
                n == xs.len(),
                i <= n,
                depth < MAX_DEPTH,
                rest@.len() == n - i,
                forall|j: int| 0 <= j < n - i ==> (#[trigger] rest@[j])@ == xs[n - 1 - j],
                resolved_prefix(self@, depth as int, xs, i as nat, fix_values) == Ok::<
                    Seq<Node<'a>>,
                    EvalError,
                >(nodes_of(out@)),
            decreases n - i,
        {
            let ghost before = rest@;
            let x = match rest.pop() {
                Some(x) => x,
                None => return Err(EvalError::StackUnderflow),
            };
            assert(before[n - i - 1]@ == xs[n - 1 - (n - i - 1)]);
            assert(x@ == xs[i as int]);
            match self.resolve_all_refs(depth + 1, x, fix_values) {
                Ok(y) => {
                    out.push(y);
                },
                Err(e) => {
                    proof {
                        assert(resolved_prefix(self@, depth as int, xs, (i + 1) as nat, fix_values)
                            == Err::<Seq<Node<'a>>, EvalError>(e));
                        lemma_prefix_error_persists(
                            self@,
                            depth as int,
                            xs,
                            (i + 1) as nat,
                            n as nat,
                            fix_values,
                        );
                    }
                    return Err(e);
                },
            }
            i = i + 1;
        }
        Ok(out)
    }
}

/// `t` with `items` appended to its arguments, when `t` is a `Global` or a
/// `Sequence`; `tag` names the instruction, for the error.
fn extend_value<'a>(t: Value<'a>, items: Vec<Value<'a>>, tag: u8) -> (r: Result<
    Value<'a>,
    EvalError,
>)
    ensures
        match extended(t@, nodes_of(items@)) {
            Some(x) => r matches Ok(v) && v@ == x,
            None => r == Err::<Value<'a>, EvalError>(EvalError::BadStackTop { tag }),
        },
{
    let ghost its = items@;
    let mut items = items;
    match t {
        Value::Global(g, args) => {
            let mut args = args;
            let ghost a = args@;
            args.append(&mut items);
            assert(nodes_of(args@) == nodes_of(a) + nodes_of(its));
            Ok(Value::Global(g, args))
        },
        Value::Sequence(k, args) => {
            let mut args = args;
            let ghost a = args@;
            args.append(&mut items);
            assert(nodes_of(args@) == nodes_of(a) + nodes_of(its));
            Ok(Value::Sequence(k, args))
        },
        _ => Err(EvalError::BadStackTop { tag }),
    }
}

/// Adds `items` to the collection that the stack's top stands for, in
/// place: the top itself, or the memo entry its chain of references leads
/// to.
fn add_to_target<'a>(
    stack: &mut PickleStack<'a>,
    memo: &mut PickleMemo<'a>,
    items: Vec<Value<'a>>,
    tag: u8,
) -> (r: Result<(), EvalError>)
    ensures
        match add_to_top(old(stack)@, old(memo)@, nodes_of(items@), tag) {
            Ok(st) => r is Ok && final(stack)@ == st.stack && final(memo)@ == st.memo,
            Err(e) => r == Err::<(), EvalError>(e),
        },
{
    let n = stack.0.len();
    if n == 0 {
        return Err(EvalError::StackUnderflow);
    }
    let slot = memo.resolve_mut(&stack.0[n - 1], true)?;
    proof {
        if let Node::Ref(first) = stack@.last() {
            lemma_chase_contains(memo@, first, lookups(true));
        }
    }
    match slot {
        None => {
            let t = match stack.0.pop() {
                Some(t) => t,
                None => return Err(EvalError::StackUnderflow),
            };
            let t2 = extend_value(t, items, tag)?;
            stack.0.push(t2);
            Ok(())
        },
        Some(id) => {
            let ghost before = memo.0@;
            let t = match memo.0.remove(&id) {
                Some(t) => t,
                None => return Err(EvalError::BadMemoId { id }),
            };
            let t2 = extend_value(t, items, tag)?;
            let ghost t2v = t2@;
            memo.0.insert(id, t2);
            assert(memo@ =~= old(memo)@.insert(id, t2v));
            Ok(())
        },
    }
}

/// Pairs flat keys and values `k0, v0, k1, v1, ...` into tuples
/// `(k0, v0), ...`; an odd number of items is an error.
fn make_kvlist<'a>(items: Vec<Value<'a>>) -> (r: Result<Vec<Value<'a>>, EvalError>)
    ensures
        match r {
            Ok(kv) => items@.len() % 2 == 0 && nodes_of(kv@) == pairs(nodes_of(items@)),
            Err(e) => items@.len() % 2 != 0 && e == EvalError::OddKeyValueList,
        },
{
    let n = items.len();
    if n % 2 != 0 {
        return Err(EvalError::OddKeyValueList);
    }
    let ghost xs = nodes_of(items@);
    let mut rest = reversed(items);
    assert forall|j: int| 0 <= j < n implies (#[trigger] rest@[j])@ == xs[n - 1 - j] by {
        crate::value::lemma_nodes_of(items@);
        assert(rest@[j] == items@[n - 1 - j]);
    }
    let mut kv: Vec<Value<'a>> = Vec::new();
    let mut i: usize = 0;
    while i < n
        invariant
            xs == nodes_of(items@),
            n == xs.len(),
            n % 2 == 0,
            i % 2 == 0,
            i <= n,
            rest@.len() == n - i,
            forall|j: int| 0 <= j < n - i ==> (#[trigger] rest@[j])@ == xs[n - 1 - j],
            kv@.len() == i / 2,
            forall|j: int| 0 <= j < i / 2 ==> (#[trigger] kv@[j])@ == pairs(xs)[j],
        decreases n - i,
    {
        let ghost before = rest@;
        let k = match rest.pop() {
            Some(x) => x,
            None => return Err(EvalError::OddKeyValueList),
        };
        let v = match rest.pop() {
            Some(x) => x,
            None => return Err(EvalError::OddKeyValueList),
        };
        assert(before[n - i - 1]@ == xs[n - 1 - (n - i - 1)]);
        assert(before[n - i - 2]@ == xs[n - 1 - (n - i - 2)]);
        let pair = seq_value(SequenceType::Tuple, vec2(k, v));
        kv.push(pair);
        i = i + 2;
    }
    assert(nodes_of(kv@) =~= pairs(xs));
    Ok(kv)
}

/// A vector of one value.
fn vec1<'a>(a: Value<'a>) -> (r: Vec<Value<'a>>)
    ensures
        nodes_of(r@) == seq![a@],
{
    let mut r: Vec<Value<'a>> = Vec::new();
    r.push(a);
    r
}

/// A vector of two values.
fn vec2<'a>(a: Value<'a>, b: Value<'a>) -> (r: Vec<Value<'a>>)
    ensures
        nodes_of(r@) == seq![a@, b@],
{
    let mut r = vec1(a);
    r.push(b);
    r
}

/// A vector of three values.
fn vec3<'a>(a: Value<'a>, b: Value<'a>, c: Value<'a>) -> (r: Vec<Value<'a>>)
    ensures
        nodes_of(r@) == seq![a@, b@, c@],
{
    let mut r = vec2(a, b);
    r.push(c);
    r
}

/// A container of kind `k` holding `items`.
fn seq_value<'a>(k: SequenceType, items: Vec<Value<'a>>) -> (r: Value<'a>)
    ensures
        r@ == Node::Sequence(k, nodes_of(items@)),
{
    Value::Sequence(k, items)
}

/// An empty container of kind `k`.
fn empty_value<'a>(k: SequenceType) -> (r: Value<'a>)
    ensures
        r@ == Node::<'a>::Sequence(k, Seq::empty()),
{
    let v: Vec<Value<'a>> = Vec::new();
    assert(nodes_of(v@) == Seq::<Node<'a>>::empty());
    seq_value(k, v)
}

/// The pair of texts `(module, name)`.
fn name_pair<'a>(module: &'a str, name: &'a str) -> (r: Value<'a>)
    ensures
        r@ == tuple(seq![Node::String(module@), Node::String(name@)]),
{
    let m = Value::String(module);
    let n = Value::String(name);
    assert(m@ == Node::<'a>::String(module@));
    assert(n@ == Node::<'a>::String(name@));
    seq_value(SequenceType::Tuple, vec2(m, n))
}

/// A named callable with no arguments yet.
fn bare_global<'a>(callee: Value<'a>) -> (r: Value<'a>)
    ensures
        r@ == Node::Global(Box::new(callee@), Seq::empty()),
{
    let v: Vec<Value<'a>> = Vec::new();
    assert(nodes_of(v@) == Seq::<Node<'a>>::empty());
    Value::Global(Box::new(callee), v)
}

/// An instance of `cls` with the arguments `args`.
fn object_value<'a>(cls: Value<'a>, args: Vec<Value<'a>>) -> (r: Value<'a>)
    ensures
        r@ == Node::Object(Box::new(cls@), nodes_of(args@)),
{
    Value::Object(Box::new(cls), args)
}

/// Stack shuffling and plain pushes.
fn step_shuffle<'a>(stack: &mut PickleStack<'a>, memo: &mut PickleMemo<'a>, op: PickleOp<'a>) -> (r:
    Result<(), EvalError>)
    requires
        op is POP || op is POP_MARK || op is DUP || op is PERSID || op is BINPERSID || op is GLOBAL || op is EMPTY_DICT || op is EMPTY_LIST || op is EMPTY_TUPLE || op is EMPTY_SET || op is BINGET || op is LONG_BINGET || op is PROTO,
    ensures
        match step(state(old(stack)@, old(memo)@), op) {
            Ok(st) => r is Ok && final(stack)@ == st.stack && final(memo)@ == st.memo,
            Err(e) => r == Err::<(), EvalError>(e),
        },
{
    match op {
        PickleOp::POP => {
            stack.pop()?;
        },
        PickleOp::POP_MARK => {
            stack.pop_mark()?;
        },
        PickleOp::DUP => {
            let n = stack.0.len();
            if n == 0 {
                return Err(EvalError::StackUnderflow);
            }
            let item = stack.0[n - 1].clone();
            stack.push(item);
        },
        PickleOp::PERSID(pid) => {
            let s = Value::String(pid);
            assert(s@ == Node::<'a>::String(pid@));
            let v = Value::PersId(Box::new(s));
            assert(v@ == Node::PersId(Box::new(s@)));
            stack.push(v);
        },
        PickleOp::BINPERSID => {
            let pid = stack.pop()?;
            let v = Value::PersId(Box::new(pid));
            assert(v@ == Node::PersId(Box::new(pid@)));
            stack.push(v);
        },
        PickleOp::GLOBAL(module, name) => {
            stack.push(bare_global(name_pair(module, name)));
        },
        PickleOp::EMPTY_DICT => stack.push(empty_value(SequenceType::Dict)),
        PickleOp::EMPTY_LIST => stack.push(empty_value(SequenceType::List)),
        PickleOp::EMPTY_TUPLE => stack.push(empty_value(SequenceType::Tuple)),
        PickleOp::EMPTY_SET => stack.push(empty_value(SequenceType::MutableSet)),
        PickleOp::BINGET(id) => stack.push(Value::Ref(id as u32)),
        PickleOp::LONG_BINGET(id) => stack.push(Value::Ref(id)),
        PickleOp::PROTO(proto) => {
            if proto > MAX_PROTOCOL {
                return Err(EvalError::UnsupportedProtocol { proto });
            }
        },
        _ => {},
    }
    Ok(())
}

/// Fixed-arity tuples and objects.
fn step_tuple<'a>(stack: &mut PickleStack<'a>, memo: &mut PickleMemo<'a>, op: PickleOp<'a>) -> (r:
    Result<(), EvalError>)
    requires
        op is TUPLE1 || op is TUPLE2 || op is TUPLE3 || op is NEWOBJ || op is NEWOBJ_EX,
    ensures
        match step(state(old(stack)@, old(memo)@), op) {
            Ok(st) => r is Ok && final(stack)@ == st.stack && final(memo)@ == st.memo,
            Err(e) => r == Err::<(), EvalError>(e),
        },
{
    match op {
        PickleOp::TUPLE1 => {
            let t1 = stack.pop()?;
            stack.push(seq_value(SequenceType::Tuple, vec1(t1)));
        },
        PickleOp::TUPLE2 => {
            let t2 = stack.pop()?;
            let t1 = stack.pop()?;
            stack.push(seq_value(SequenceType::Tuple, vec2(t1, t2)));
        },
        PickleOp::TUPLE3 => {
            let t3 = stack.pop()?;
            let t2 = stack.pop()?;
            let t1 = stack.pop()?;
            stack.push(seq_value(SequenceType::Tuple, vec3(t1, t2, t3)));
        },
        PickleOp::NEWOBJ => {
            let args = stack.pop()?;
            let cls = stack.pop()?;
            stack.push(object_value(cls, vec1(args)));
        },
        PickleOp::NEWOBJ_EX => {
            let kwargs = stack.pop()?;
            let args = stack.pop()?;
            let cls = stack.pop()?;
            let group = seq_value(SequenceType::Tuple, vec2(args, kwargs));
            stack.push(object_value(cls, vec1(group)));
        },
        _ => {},
    }
    Ok(())
}

/// Instructions that read or write the memo table.
fn step_memo<'a>(stack: &mut PickleStack<'a>, memo: &mut PickleMemo<'a>, op: PickleOp<'a>) -> (r:
    Result<(), EvalError>)
    requires
        op is REDUCE || op is BUILD || op is STACK_GLOBAL || op is GET || op is PUT || op is BINPUT || op is LONG_BINPUT || op is MEMOIZE,
    ensures
        match step(state(old(stack)@, old(memo)@), op) {
            Ok(st) => r is Ok && final(stack)@ == st.stack && final(memo)@ == st.memo,
            Err(e) => r == Err::<(), EvalError>(e),
        },
{
    match op {
        PickleOp::REDUCE => {
            let args = memo.resolve(stack.pop()?, true)?;
            let target = memo.resolve(stack.pop()?, true)?;
            let ghost tv = target@;
            let ghost av = args@;
            let v = Value::Global(Box::new(target), vec1(args));
            assert(v@ == Node::Global(Box::new(tv), seq![av]));
            stack.push(v);
        },
        PickleOp::BUILD => {
            let args = memo.resolve(stack.pop()?, true)?;
            let target = memo.resolve(stack.pop()?, true)?;
            let v = Value::Build(Box::new(target), Box::new(args));
            assert(v@ == Node::Build(Box::new(target@), Box::new(args@)));
            stack.push(v);
        },
        PickleOp::STACK_GLOBAL => {
            let name = memo.resolve(stack.pop()?, true)?;
            let module = memo.resolve(stack.pop()?, true)?;
            let callee = seq_value(SequenceType::Tuple, vec2(module, name));
            stack.push(bare_global(callee));
        },
        PickleOp::GET(text) => {
            let id = memo_id(text)?;
            stack.push(Value::Ref(id));
        },
        PickleOp::PUT(text) => {
            let id = memo_id(text)?;
            memo.insert(id, stack.pop()?);
            stack.push(Value::Ref(id));
        },
        PickleOp::BINPUT(id) => {
            memo.insert(id as u32, stack.pop()?);
            stack.push(Value::Ref(id as u32));
        },
        PickleOp::LONG_BINPUT(id) => {
            memo.insert(id, stack.pop()?);
            stack.push(Value::Ref(id));
        },
        PickleOp::MEMOIZE => {
            let n = stack.0.len();
            if n == 0 {
                return Err(EvalError::StackUnderflow);
            }
            let item = stack.0[n - 1].clone();
            let id = memo.len() as u32;
            memo.insert(id, item);
        },
        _ => {},
    }
    Ok(())
}

/// Instructions that build a container or an object from the items above the topmost mark.
fn step_mark<'a>(stack: &mut PickleStack<'a>, memo: &mut PickleMemo<'a>, op: PickleOp<'a>) -> (r:
    Result<(), EvalError>)
    requires
        op is TUPLE || op is LIST || op is FROZENSET || op is INST,
    ensures
        match step(state(old(stack)@, old(memo)@), op) {
            Ok(st) => r is Ok && final(stack)@ == st.stack && final(memo)@ == st.memo,
            Err(e) => r == Err::<(), EvalError>(e),
        },
{
    match op {
        PickleOp::TUPLE => {
            let items = stack.pop_mark()?;
            stack.push(seq_value(SequenceType::Tuple, items));
        },
        PickleOp::LIST => {
            let items = stack.pop_mark()?;
            stack.push(seq_value(SequenceType::List, items));
        },
        PickleOp::FROZENSET => {
            let items = stack.pop_mark()?;
            stack.push(seq_value(SequenceType::FrozenSet, items));
        },
        PickleOp::INST(module, class) => {
            let args = stack.pop_mark()?;
            stack.push(object_value(name_pair(module, class), args));
        },
        _ => {},
    }
    Ok(())
}

/// Instructions that pair up or split the items above the topmost mark.
fn step_mark_pairs<'a>(stack: &mut PickleStack<'a>, memo: &mut PickleMemo<'a>, op: PickleOp<'a>) -> (r:
    Result<(), EvalError>)
    requires
        op is DICT || op is OBJ,
    ensures
        match step(state(old(stack)@, old(memo)@), op) {
            Ok(st) => r is Ok && final(stack)@ == st.stack && final(memo)@ == st.memo,
            Err(e) => r == Err::<(), EvalError>(e),
        },
{
    match op {
        PickleOp::DICT => {
            let kv = make_kvlist(stack.pop_mark()?)?;
            stack.push(seq_value(SequenceType::Dict, kv));
        },
        PickleOp::OBJ => {
            let n = stack.0.len();
            let m = stack.find_mark()?;
            if m + 1 >= n {
                return Err(EvalError::StackUnderflow);
            }
            let ghost before = stack.0@;
            let args = stack.0.split_off(m + 2);
            let cls = match stack.0.pop() {
                Some(c) => c,
                None => return Err(EvalError::StackUnderflow),
            };
            stack.0.truncate(m);
            assert(stack.0@ =~= before.take(m as int));
            assert(args@ =~= before.subrange(m + 2, n as int));
            stack.push(object_value(cls, args));
        },
        _ => {},
    }
    Ok(())
}

/// Instructions that add to a collection in place.
fn step_add<'a>(stack: &mut PickleStack<'a>, memo: &mut PickleMemo<'a>, op: PickleOp<'a>) -> (r:
    Result<(), EvalError>)
    requires
        op is SETITEM || op is SETITEMS || op is APPEND || op is APPENDS || op is ADDITEMS,
    ensures
        match step(state(old(stack)@, old(memo)@), op) {
            Ok(st) => r is Ok && final(stack)@ == st.stack && final(memo)@ == st.memo,
            Err(e) => r == Err::<(), EvalError>(e),
        },
{
    match op {
        PickleOp::SETITEM => {
            let v = stack.pop()?;
            let k = stack.pop()?;
            let pair = seq_value(SequenceType::Tuple, vec2(k, v));
            add_to_target(stack, memo, vec1(pair), p_op::SETITEM)?;
        },
        PickleOp::SETITEMS => {
            let kv = make_kvlist(stack.pop_mark()?)?;
            add_to_target(stack, memo, kv, p_op::SETITEMS)?;
        },
        PickleOp::APPEND => {
            let v = stack.pop()?;
            add_to_target(stack, memo, vec1(v), p_op::APPEND)?;
        },
        PickleOp::APPENDS => {
            let items = stack.pop_mark()?;
            add_to_target(stack, memo, items, p_op::APPENDS)?;
        },
        PickleOp::ADDITEMS => {
            let items = stack.pop_mark()?;
            add_to_target(stack, memo, items, p_op::ADDITEMS)?;
        },
        _ => {},
    }
    Ok(())
}

/// Runs one instruction other than `STOP` on the stack and the memo table.
fn step_op<'a>(stack: &mut PickleStack<'a>, memo: &mut PickleMemo<'a>, op: PickleOp<'a>) -> (r:
    Result<(), EvalError>)
    requires
        !(op is STOP),
    ensures
        match step(state(old(stack)@, old(memo)@), op) {
            Ok(st) => r is Ok && final(stack)@ == st.stack && final(memo)@ == st.memo,
            Err(e) => r == Err::<(), EvalError>(e),
        },
{
    match op {
        PickleOp::POP | PickleOp::POP_MARK | PickleOp::DUP | PickleOp::PERSID(..) | PickleOp::BINPERSID | PickleOp::GLOBAL(..) | PickleOp::EMPTY_DICT | PickleOp::EMPTY_LIST | PickleOp::EMPTY_TUPLE | PickleOp::EMPTY_SET | PickleOp::BINGET(..) | PickleOp::LONG_BINGET(..) | PickleOp::PROTO(..) => step_shuffle(stack, memo, op),
        PickleOp::TUPLE1 | PickleOp::TUPLE2 | PickleOp::TUPLE3 | PickleOp::NEWOBJ | PickleOp::NEWOBJ_EX => step_tuple(stack, memo, op),
        PickleOp::REDUCE | PickleOp::BUILD | PickleOp::STACK_GLOBAL | PickleOp::GET(..) | PickleOp::PUT(..) | PickleOp::BINPUT(..) | PickleOp::LONG_BINPUT(..) | PickleOp::MEMOIZE => step_memo(stack, memo, op),
        PickleOp::TUPLE | PickleOp::LIST | PickleOp::FROZENSET | PickleOp::INST(..) => step_mark(stack, memo, op),
        PickleOp::DICT | PickleOp::OBJ => step_mark_pairs(stack, memo, op),
        PickleOp::SETITEM | PickleOp::SETITEMS | PickleOp::APPEND | PickleOp::APPENDS | PickleOp::ADDITEMS => step_add(stack, memo, op),
        _ => {
            stack.push(Value::Raw(op));
            Ok(())
        },
    }
}

/// Evaluates the instructions `x` in order on an empty stack and memo table,
/// up to the first `STOP`. Returns the values left on the stack and the memo
/// table; with `resolve_refs` every value is first resolved through the memo
/// table and normalized (`PickleMemo::resolve_all_refs_iter` from depth 0).
pub fn evaluate<'a>(x: &[PickleOp<'a>], resolve_refs: bool) -> (r: Result<
    (Vec<Value<'a>>, PickleMemo<'a>),
    EvalError,
>)
    ensures
        match evaluation(x@) {
            Err(e) => r == Err::<(Vec<Value<'a>>, PickleMemo<'a>), EvalError>(e),
            Ok(st) => if resolve_refs {
                match resolved_all(st.memo, 0, st.stack, true) {
                    Ok(vs) => r matches Ok((vals, memo)) && nodes_of(vals@) == vs && memo@
                        == st.memo,
                    Err(e) => r == Err::<(Vec<Value<'a>>, PickleMemo<'a>), EvalError>(e),
                }
            } else {
                r matches Ok((vals, memo)) && nodes_of(vals@) == st.stack && memo@ == st.memo
            },
        },
{
    let mut stack = PickleStack::new();
    let mut memo = PickleMemo::new();
    let mut i: usize = 0;
    assert(x@.take(0) =~= Seq::<PickleOp<'a>>::empty());
    while i < x.len() && !matches!(x[i], PickleOp::STOP)
        invariant
            i <= x@.len(),
            forall|j: int| 0 <= j < i ==> !(#[trigger] x@[j] is STOP),
            run(x@.take(i as int)) == Ok::<EvalState<'a>, EvalError>(state(stack@, memo@)),
        decreases x@.len() - i,
    {
        assert(x@.take(i + 1).drop_last() =~= x@.take(i as int));
        match step_op(&mut stack, &mut memo, x[i]) {
            Ok(()) => {},
            Err(e) => {
                proof {
                    lemma_stop_after(x@, i as int);
                    lemma_run_error_persists(x@, i + 1, stop_at(x@));
                }
                return Err(e);
            },
        }
        i = i + 1;
    }
    proof {
        lemma_stop_at(x@, i as int);
    }
    if !resolve_refs {
        return Ok((stack.0, memo));
    }
    let vals = memo.resolve_all_refs_iter(0, stack.0, true)?;
    Ok((vals, memo))
}

} // verus!

verus! {

/// Whether `op` pushes a literal: evaluation keeps it on the stack as it is,
/// for normalization to turn into a value.
pub open spec fn is_literal(op: PickleOp) -> bool {
    match op {
        PickleOp::NONE | PickleOp::NEWTRUE | PickleOp::NEWFALSE | PickleOp::BININT(_)
        | PickleOp::BININT1(_) | PickleOp::BININT2(_) | PickleOp::LONG1(_) | PickleOp::LONG4(_)
        | PickleOp::BINFLOAT(_) | PickleOp::INT(_) | PickleOp::LONG(_) | PickleOp::FLOAT(_)
        | PickleOp::STRING(_) | PickleOp::UNICODE(_) | PickleOp::BINUNICODE(_)
        | PickleOp::SHORT_BINUNICODE(_) | PickleOp::BINUNICODE8(_) | PickleOp::BINSTRING(_)
        | PickleOp::SHORT_BINSTRING(_) | PickleOp::BINBYTES(_) | PickleOp::SHORT_BINBYTES(_)
        | PickleOp::BINBYTES8(_) | PickleOp::BYTEARRAY8(_) => true,
        _ => false,
    }
}

proof fn lemma_run_next<'a>(ops: Seq<PickleOp<'a>>, i: int)
    requires
        0 <= i < ops.len(),
    ensures
        run(ops.take(i + 1)) == match run(ops.take(i)) {
            Ok(st) => step(st, ops[i]),
            Err(e) => Err(e),
        },
{
    assert(ops.take(i + 1).drop_last() =~= ops.take(i));
}

proof fn lemma_run_start<'a>(ops: Seq<PickleOp<'a>>)
    ensures
        run(ops.take(0)) == Ok::<EvalState<'a>, EvalError>(initial_state()),
{
    assert(ops.take(0) =~= Seq::<PickleOp<'a>>::empty());
}

/// A literal instruction pushes itself, unchanged, whatever the state.
pub proof fn lemma_literal_pushes<'a>(st: EvalState<'a>, op: PickleOp<'a>)
    requires
        is_literal(op),
    ensures
        step(st, op) == pushed(st, Node::Raw(op)),
{
}

proof fn lemma_tuple_step<'a>(a: PickleOp<'a>, b: PickleOp<'a>, c: PickleOp<'a>)
    requires
        is_literal(a),
        is_literal(b),
        is_literal(c),
    ensures
        step(
            state(
                seq![Node::Raw(PickleOp::MARK), Node::Raw(a), Node::Raw(b), Node::Raw(c)],
                Map::empty(),
            ),
            PickleOp::TUPLE,
        ) == Ok::<EvalState<'a>, EvalError>(
            state(seq![tuple(seq![Node::Raw(a), Node::Raw(b), Node::Raw(c)])], Map::empty()),
        ),
{
    let s4 = seq![Node::Raw(PickleOp::MARK), Node::Raw(a), Node::Raw(b), Node::Raw(c)];
    assert(last_mark(s4) == Some(0int)) by {
        reveal_with_fuel(mark_below, 5);
    }
    assert(s4.subrange(1, 4) =~= seq![Node::Raw(a), Node::Raw(b), Node::Raw(c)]);
    assert(s4.take(0).push(tuple(s4.subrange(1, 4))) =~= seq![
        tuple(seq![Node::Raw(a), Node::Raw(b), Node::Raw(c)]),
    ]);
}

/// `MARK`, three literals, `TUPLE` leaves exactly one value: the tuple of
/// the three, in the order they were pushed.
pub proof fn lemma_mark_tuple<'a>(a: PickleOp<'a>, b: PickleOp<'a>, c: PickleOp<'a>)
    requires
        is_literal(a),
        is_literal(b),
        is_literal(c),
    ensures
        evaluation(seq![PickleOp::MARK, a, b, c, PickleOp::TUPLE]) == Ok::<EvalState<'a>, EvalError>(
            state(seq![tuple(seq![Node::Raw(a), Node::Raw(b), Node::Raw(c)])], Map::empty()),
        ),
{
    let ops = seq![PickleOp::MARK, a, b, c, PickleOp::TUPLE];
    lemma_stop_at(ops, 5);
    assert(ops.take(5) =~= ops);
    let mark = Node::Raw(PickleOp::MARK);
    let e = Map::<u32, Node<'a>>::empty();
    let s1 = seq![mark];
    let s2 = seq![mark, Node::Raw(a)];
    let s3 = seq![mark, Node::Raw(a), Node::Raw(b)];
    let s4 = seq![mark, Node::Raw(a), Node::Raw(b), Node::Raw(c)];
    lemma_run_start(ops);
    lemma_run_next(ops, 0);
    assert(Seq::<Node<'a>>::empty().push(mark) =~= s1);
    assert(run(ops.take(1)) == Ok::<EvalState<'a>, EvalError>(state(s1, e)));
    lemma_run_next(ops, 1);
    lemma_literal_pushes(state(s1, e), a);
    assert(s1.push(Node::Raw(a)) =~= s2);
    assert(run(ops.take(2)) == Ok::<EvalState<'a>, EvalError>(state(s2, e)));
    lemma_run_next(ops, 2);
    lemma_literal_pushes(state(s2, e), b);
    assert(s2.push(Node::Raw(b)) =~= s3);
    assert(run(ops.take(3)) == Ok::<EvalState<'a>, EvalError>(state(s3, e)));
    lemma_run_next(ops, 3);
    lemma_literal_pushes(state(s3, e), c);
    assert(s3.push(Node::Raw(c)) =~= s4);
    assert(run(ops.take(4)) == Ok::<EvalState<'a>, EvalError>(state(s4, e)));
    lemma_run_next(ops, 4);
    lemma_tuple_step(a, b, c);
}

proof fn lemma_dict_step<'a>(k1: PickleOp<'a>, v1: PickleOp<'a>, k2: PickleOp<'a>, v2: PickleOp<'a>)
    requires
        is_literal(k1),
        is_literal(v1),
        is_literal(k2),
        is_literal(v2),
    ensures
        step(
            state(
                seq![Node::Raw(PickleOp::MARK), Node::Raw(k1), Node::Raw(v1), Node::Raw(k2), Node::Raw(v2)],
                Map::empty(),
            ),
            PickleOp::DICT,
        ) == Ok::<EvalState<'a>, EvalError>(
            state(
                seq![
                    Node::Sequence(
                        SequenceType::Dict,
                        seq![
                            tuple(seq![Node::Raw(k1), Node::Raw(v1)]),
                            tuple(seq![Node::Raw(k2), Node::Raw(v2)]),
                        ],
                    ),
                ],
                Map::empty(),
            ),
        ),
{
    let s5 = seq![Node::Raw(PickleOp::MARK), Node::Raw(k1), Node::Raw(v1), Node::Raw(k2), Node::Raw(v2)];
    assert(last_mark(s5) == Some(0int)) by {
        reveal_with_fuel(mark_below, 6);
    }
    let items = s5.subrange(1, 5);
    assert(items =~= seq![Node::Raw(k1), Node::Raw(v1), Node::Raw(k2), Node::Raw(v2)]);
    let d = seq![tuple(seq![Node::Raw(k1), Node::Raw(v1)]), tuple(seq![Node::Raw(k2), Node::Raw(v2)])];
    assert(pairs(items) =~= d) by {
        assert(pairs(items)[0] == tuple(seq![items[0], items[1]]));
        assert(pairs(items)[1] == tuple(seq![items[2], items[3]]));
    }
    assert(s5.take(0).push(Node::Sequence(SequenceType::Dict, pairs(items))) =~= seq![
        Node::Sequence(SequenceType::Dict, d),
    ]);
}

/// `MARK, k1, v1, k2, v2, DICT` leaves exactly one value: a dictionary of
/// the two pairs `(k1, v1)` and `(k2, v2)`, never the flat list.
pub proof fn lemma_mark_dict<'a>(k1: PickleOp<'a>, v1: PickleOp<'a>, k2: PickleOp<'a>, v2: PickleOp<'a>)
    requires
        is_literal(k1),
        is_literal(v1),
        is_literal(k2),
        is_literal(v2),
    ensures
        evaluation(seq![PickleOp::MARK, k1, v1, k2, v2, PickleOp::DICT]) == Ok::<
            EvalState<'a>,
            EvalError,
        >(
            state(
                seq![
                    Node::Sequence(
                        SequenceType::Dict,
                        seq![
                            tuple(seq![Node::Raw(k1), Node::Raw(v1)]),
                            tuple(seq![Node::Raw(k2), Node::Raw(v2)]),
                        ],
                    ),
                ],
                Map::empty(),
            ),
        ),
{
    let ops = seq![PickleOp::MARK, k1, v1, k2, v2, PickleOp::DICT];
    lemma_stop_at(ops, 6);
    assert(ops.take(6) =~= ops);
    let mark = Node::Raw(PickleOp::MARK);
    let e = Map::<u32, Node<'a>>::empty();
    let s1 = seq![mark];
    let s2 = seq![mark, Node::Raw(k1)];
    let s3 = seq![mark, Node::Raw(k1), Node::Raw(v1)];
    let s4 = seq![mark, Node::Raw(k1), Node::Raw(v1), Node::Raw(k2)];
    let s5 = seq![mark, Node::Raw(k1), Node::Raw(v1), Node::Raw(k2), Node::Raw(v2)];
    lemma_run_start(ops);
    lemma_run_next(ops, 0);
    assert(Seq::<Node<'a>>::empty().push(mark) =~= s1);
    assert(run(ops.take(1)) == Ok::<EvalState<'a>, EvalError>(state(s1, e)));
    lemma_run_next(ops, 1);
    lemma_literal_pushes(state(s1, e), k1);
    assert(s1.push(Node::Raw(k1)) =~= s2);
    assert(run(ops.take(2)) == Ok::<EvalState<'a>, EvalError>(state(s2, e)));
    lemma_run_next(ops, 2);
    lemma_literal_pushes(state(s2, e), v1);
    assert(s2.push(Node::Raw(v1)) =~= s3);
    assert(run(ops.take(3)) == Ok::<EvalState<'a>, EvalError>(state(s3, e)));
    lemma_run_next(ops, 3);
    lemma_literal_pushes(state(s3, e), k2);
    assert(s3.push(Node::Raw(k2)) =~= s4);
    assert(run(ops.take(4)) == Ok::<EvalState<'a>, EvalError>(state(s4, e)));
    lemma_run_next(ops, 4);
    lemma_literal_pushes(state(s4, e), v2);
    assert(s4.push(Node::Raw(v2)) =~= s5);
    assert(run(ops.take(5)) == Ok::<EvalState<'a>, EvalError>(state(s5, e)));
    lemma_run_next(ops, 5);
    lemma_dict_step(k1, v1, k2, v2);
}

/// Normalizing twice normalizes once.
pub proof fn lemma_fix_idempotent<'a>(v: Node<'a>)
    ensures
        fix_node(fix_node(v)) == fix_node(v),
{
}

proof fn lemma_resolve_stored<'a>(memo: Map<u32, Node<'a>>, v: PickleOp<'a>, id: u32)
    requires
        is_literal(v),
        memo.contains_key(id),
        memo[id] == Node::Raw(v),
    ensures
        resolved(memo, 1, Node::Ref(id), true) == Ok::<Node<'a>, EvalError>(fix_node(Node::Raw(v))),
{
    let x = fix_node(Node::Raw(v));
    assert(resolve_node(memo, Node::Raw(v), 249) == Ok::<Node<'a>, EvalError>(Node::Raw(v)));
    assert(resolve_node(memo, Node::Ref(id), 250) == Ok::<Node<'a>, EvalError>(Node::Raw(v)));
    assert(resolved(memo, 2, Node::Raw(v), true) == Ok::<Node<'a>, EvalError>(x));
    lemma_fix_idempotent(Node::Raw(v));
}

/// Storing a literal under a memo id and fetching that id leaves two
/// references that resolve to the same value: the literal, normalized.
pub proof fn lemma_put_get<'a>(v: PickleOp<'a>, id: u8)
    requires
        is_literal(v),
    ensures
        evaluation(seq![v, PickleOp::BINPUT(id), PickleOp::BINGET(id)]) matches Ok(st) && resolved_all(
            st.memo,
            0,
            st.stack,
            true,
        ) == Ok::<Seq<Node<'a>>, EvalError>(
            seq![fix_node(Node::Raw(v)), fix_node(Node::Raw(v))],
        ),
{
    let ops = seq![v, PickleOp::BINPUT(id), PickleOp::BINGET(id)];
    lemma_stop_at(ops, 3);
    assert(ops.take(3) =~= ops);
    let e = Map::<u32, Node<'a>>::empty();
    let memo = e.insert(id as u32, Node::Raw(v));
    let rf = Node::<'a>::Ref(id as u32);
    lemma_run_start(ops);
    lemma_run_next(ops, 0);
    lemma_literal_pushes(initial_state(), v);
    assert(run(ops.take(1)) == Ok::<EvalState<'a>, EvalError>(
        state(Seq::empty().push(Node::Raw(v)), e),
    ));
    lemma_run_next(ops, 1);
    assert(Seq::<Node<'a>>::empty().push(Node::Raw(v)).drop_last().push(rf) =~= seq![rf]);
    assert(run(ops.take(2)) == Ok::<EvalState<'a>, EvalError>(state(seq![rf], memo)));
    lemma_run_next(ops, 2);
    assert(seq![rf].push(rf) =~= seq![rf, rf]);
    assert(evaluation(ops) == Ok::<EvalState<'a>, EvalError>(state(seq![rf, rf], memo)));
    lemma_resolve_stored(memo, v, id as u32);
    let x = fix_node(Node::Raw(v));
    let xs = seq![rf, rf];
    assert(resolved_prefix(memo, 0, xs, 0, true) == Ok::<Seq<Node<'a>>, EvalError>(Seq::empty()));
    assert(resolved_prefix(memo, 0, xs, 1, true) == Ok::<Seq<Node<'a>>, EvalError>(seq![x])) by {
        assert(Seq::<Node<'a>>::empty().push(x) =~= seq![x]);
    }
    assert(resolved_prefix(memo, 0, xs, 2, true) == Ok::<Seq<Node<'a>>, EvalError>(seq![x, x])) by {
        assert(seq![x].push(x) =~= seq![x, x]);
    }
}

/// Whether every reference in the memo table names an entry of it.
pub open spec fn refs_closed<'a>(memo: Map<u32, Node<'a>>) -> bool {
    forall|id: u32|
        #[trigger] memo.contains_key(id) ==> (memo[id] matches Node::Ref(t) ==> memo.contains_key(t))
}

/// Resolution through a memo table whose references all name entries never
/// fails, cycles included: it stops after its lookups are spent.
pub proof fn lemma_resolution_total<'a>(memo: Map<u32, Node<'a>>, v: Node<'a>, n: nat)
    requires
        refs_closed(memo),
        v matches Node::Ref(id) ==> memo.contains_key(id),
    ensures
        resolve_node(memo, v, n) is Ok,
    decreases n,
{
    if let Node::Ref(id) = v {
        if n > 1 {
            lemma_resolution_total(memo, memo[id], (n - 1) as nat);
        }
    }
}

/// `SETITEMS` with a key and a value above the mark, over a value that is
/// neither a reference nor a collection, fails with a bad stack top.
pub proof fn lemma_setitems_bad_top<'a>(
    t: Node<'a>,
    k: Node<'a>,
    v: Node<'a>,
    memo: Map<u32, Node<'a>>,
)
    requires
        !(t is Ref),
        !(t is Global),
        !(t is Sequence),
        !is_mark(k),
        !is_mark(v),
    ensures
        step(state(seq![t, Node::Raw(PickleOp::MARK), k, v], memo), PickleOp::SETITEMS) == Err::<
            EvalState<'a>,
            EvalError,
        >(EvalError::BadStackTop { tag: p_op::SETITEMS }),
{
    let s = seq![t, Node::Raw(PickleOp::MARK), k, v];
    assert(last_mark(s) == Some(1int)) by {
        reveal_with_fuel(mark_below, 4);
    }
    assert(s.take(1) =~= seq![t]);
}

/// A declared protocol above the highest supported one fails evaluation at
/// once, whatever follows.
pub proof fn lemma_protocol_too_high<'a>(proto: u8, rest: Seq<PickleOp<'a>>)
    requires
        proto > MAX_PROTOCOL,
    ensures
        evaluation(seq![PickleOp::PROTO(proto)] + rest) == Err::<EvalState<'a>, EvalError>(
            EvalError::UnsupportedProtocol { proto },
        ),
{
    let ops = seq![PickleOp::PROTO(proto)] + rest;
    assert(ops[0] == PickleOp::PROTO(proto));
    lemma_stop_after(ops, 0);
    lemma_run_start(ops);
    lemma_run_next(ops, 0);
    lemma_run_error_persists(ops, 1, stop_at(ops));
}

/// Whether every reference in the first `n` trees of `xs` names an entry of
/// the memo table.
pub open spec fn all_refs_ok<'a>(memo: Map<u32, Node<'a>>, xs: Seq<Node<'a>>, n: nat) -> bool
    decreases xs, n,
    when n <= xs.len()
{
    if n == 0 {
        true
    } else {
        all_refs_ok(memo, xs, (n - 1) as nat) && refs_ok(memo, xs[n - 1])
    }
}

/// Whether every reference in the tree `v` names an entry of the memo table.
pub open spec fn refs_ok<'a>(memo: Map<u32, Node<'a>>, v: Node<'a>) -> bool
    decreases v, 0nat,
{
    match v {
        Node::Ref(id) => memo.contains_key(id),
        Node::App(f, xs) => refs_ok(memo, *f) && all_refs_ok(memo, xs, xs.len()),
        Node::Object(c, xs) => refs_ok(memo, *c) && all_refs_ok(memo, xs, xs.len()),
        Node::Global(g, xs) => refs_ok(memo, *g) && all_refs_ok(memo, xs, xs.len()),
        Node::Build(t, s) => refs_ok(memo, *t) && refs_ok(memo, *s),
        Node::PersId(p) => refs_ok(memo, *p),
        Node::Sequence(_, xs) => all_refs_ok(memo, xs, xs.len()),
        _ => true,
    }
}

/// Whether every reference in every entry of the memo table names an entry.
pub open spec fn memo_closed<'a>(memo: Map<u32, Node<'a>>) -> bool {
    forall|id: u32| #[trigger] memo.contains_key(id) ==> refs_ok(memo, memo[id])
}

proof fn lemma_resolve_closed<'a>(memo: Map<u32, Node<'a>>, v: Node<'a>, n: nat)
    requires
        memo_closed(memo),
        refs_ok(memo, v),
    ensures
        resolve_node(memo, v, n) matches Ok(t) && refs_ok(memo, t),
    decreases n,
{
    if let Node::Ref(id) = v {
        assert(memo.contains_key(id));
        if n > 1 {
            lemma_resolve_closed(memo, memo[id], (n - 1) as nat);
        }
    }
}

proof fn lemma_prefix_total<'a>(
    memo: Map<u32, Node<'a>>,
    depth: int,
    xs: Seq<Node<'a>>,
    n: nat,
    fix: bool,
)
    requires
        memo_closed(memo),
        n <= xs.len(),
        all_refs_ok(memo, xs, n),
    ensures
        resolved_prefix(memo, depth, xs, n, fix) is Ok,
    decreases MAX_DEPTH - depth, n + 1,
{
    if depth < MAX_DEPTH && n > 0 {
        lemma_prefix_total(memo, depth, xs, (n - 1) as nat, fix);
        lemma_resolved_total(memo, depth + 1, xs[n - 1], fix);
    }
}

/// Resolving a whole tree through the memo table never fails when every
/// reference, in the tree and in the table, names an entry: cycles
/// included, the depth bound stops the resolution.
pub proof fn lemma_resolved_total<'a>(memo: Map<u32, Node<'a>>, depth: int, v: Node<'a>, fix: bool)
    requires
        memo_closed(memo),
        refs_ok(memo, v),
    ensures
        resolved(memo, depth, v, fix) is Ok,
    decreases MAX_DEPTH - depth, 0int,
{
    if depth < MAX_DEPTH {
        match v {
            Node::Ref(_) => {
                lemma_resolve_closed(memo, v, MAX_DEPTH as nat);
                let t = resolve_node(memo, v, MAX_DEPTH as nat)->Ok_0;
                lemma_resolved_total(memo, depth + 1, t, fix);
            },
            Node::App(f, xs) => {
                lemma_resolved_total(memo, depth + 1, *f, fix);
                lemma_prefix_total(memo, depth + 1, xs, xs.len(), fix);
                assert(resolved_all(memo, depth + 1, xs, fix) is Ok);
            },
            Node::Object(c, xs) => {
                lemma_resolved_total(memo, depth + 1, *c, fix);
                lemma_prefix_total(memo, depth + 1, xs, xs.len(), fix);
                assert(resolved_all(memo, depth + 1, xs, fix) is Ok);
            },
            Node::Global(g, xs) => {
                lemma_resolved_total(memo, depth + 1, *g, fix);
                lemma_prefix_total(memo, depth + 1, xs, xs.len(), fix);
                assert(resolved_all(memo, depth + 1, xs, fix) is Ok);
            },
            Node::Build(t, s) => {
                lemma_resolved_total(memo, depth + 1, *t, fix);
                lemma_resolved_total(memo, depth + 1, *s, fix);
            },
            Node::PersId(p) => {
                lemma_resolved_total(memo, depth + 1, *p, fix);
            },
            Node::Sequence(_, xs) => {
                lemma_prefix_total(memo, depth + 1, xs, xs.len(), fix);
                assert(resolved_all(memo, depth + 1, xs, fix) is Ok);
            },
            _ => {},
        }
    }
}

} // verus!
