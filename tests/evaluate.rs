use repugnant_pickle::eval::{evaluate, EvalError, PickleMemo, PickleStack, MAX_DEPTH};
use repugnant_pickle::ops::{p_op, PickleOp};
use repugnant_pickle::parsers::parse_ops;
use repugnant_pickle::value::{SequenceType, Value};

fn tuple<'a>(items: Vec<Value<'a>>) -> Value<'a> {
    Value::Sequence(SequenceType::Tuple, items)
}

#[test]
fn mark_three_values_tuple_keeps_push_order() {
    let ops = [
        PickleOp::MARK,
        PickleOp::BININT1(1),
        PickleOp::BININT1(2),
        PickleOp::BININT1(3),
        PickleOp::TUPLE,
    ];
    let (vals, memo) = evaluate(&ops, true).unwrap();
    assert_eq!(vals, vec![tuple(vec![Value::Int(1), Value::Int(2), Value::Int(3)])]);
    assert!(memo.0.is_empty());
    let (raw, _) = evaluate(&ops, false).unwrap();
    assert_eq!(
        raw,
        vec![tuple(vec![
            Value::Raw(PickleOp::BININT1(1)),
            Value::Raw(PickleOp::BININT1(2)),
            Value::Raw(PickleOp::BININT1(3)),
        ])]
    );
}

#[test]
fn fixed_arity_tuples_keep_push_order() {
    let ops = [PickleOp::BININT1(1), PickleOp::BININT1(2), PickleOp::TUPLE2];
    let (vals, _) = evaluate(&ops, true).unwrap();
    assert_eq!(vals, vec![tuple(vec![Value::Int(1), Value::Int(2)])]);
    let ops = [
        PickleOp::BININT1(1),
        PickleOp::BININT1(2),
        PickleOp::BININT1(3),
        PickleOp::TUPLE3,
    ];
    let (vals, _) = evaluate(&ops, true).unwrap();
    assert_eq!(vals, vec![tuple(vec![Value::Int(1), Value::Int(2), Value::Int(3)])]);
    let ops = [PickleOp::NONE, PickleOp::TUPLE1];
    let (vals, _) = evaluate(&ops, true).unwrap();
    assert_eq!(vals, vec![tuple(vec![Value::NoneValue])]);
}

#[test]
fn memo_store_then_fetch_gives_equal_values() {
    let ops = [PickleOp::BINUNICODE("v"), PickleOp::BINPUT(5), PickleOp::BINGET(5)];
    let (vals, memo) = evaluate(&ops, true).unwrap();
    assert_eq!(vals, vec![Value::String("v"), Value::String("v")]);
    assert_eq!(memo.0.get(&5), Some(&Value::Raw(PickleOp::BINUNICODE("v"))));
    let (raw, _) = evaluate(&ops, false).unwrap();
    assert_eq!(raw, vec![Value::Ref(5), Value::Ref(5)]);
}

#[test]
fn dict_from_mark_is_paired() {
    let ops = [
        PickleOp::MARK,
        PickleOp::BINUNICODE("a"),
        PickleOp::BININT1(1),
        PickleOp::BINUNICODE("b"),
        PickleOp::BININT1(2),
        PickleOp::DICT,
    ];
    let (vals, _) = evaluate(&ops, true).unwrap();
    assert_eq!(
        vals,
        vec![Value::Sequence(
            SequenceType::Dict,
            vec![
                tuple(vec![Value::String("a"), Value::Int(1)]),
                tuple(vec![Value::String("b"), Value::Int(2)]),
            ]
        )]
    );
}

#[test]
fn dict_with_odd_items_fails() {
    let ops = [PickleOp::MARK, PickleOp::BININT1(1), PickleOp::DICT];
    assert_eq!(evaluate(&ops, true).unwrap_err(), EvalError::OddKeyValueList);
}

#[test]
fn cyclic_memo_chain_terminates() {
    let ops = [
        PickleOp::BINGET(2),
        PickleOp::BINPUT(1),
        PickleOp::BINGET(1),
        PickleOp::BINPUT(2),
    ];
    let (vals, memo) = evaluate(&ops, true).unwrap();
    assert_eq!(vals.len(), 2);
    assert!(matches!(vals[0], Value::Ref(_)));
    assert_eq!(memo.0.len(), 2);
    let r = memo.resolve(Value::Ref(1), true).unwrap();
    assert!(matches!(r, Value::Ref(_)));
    assert_eq!(memo.resolve(Value::Ref(1), false).unwrap(), Value::Ref(2));
    assert_eq!(MAX_DEPTH, 250);
}

#[test]
fn setitems_on_an_integer_is_a_bad_top() {
    let ops = [
        PickleOp::BININT1(7),
        PickleOp::MARK,
        PickleOp::BINUNICODE("k"),
        PickleOp::BININT1(1),
        PickleOp::SETITEMS,
    ];
    assert_eq!(
        evaluate(&ops, true).unwrap_err(),
        EvalError::BadStackTop { tag: p_op::SETITEMS }
    );
}

#[test]
fn protocol_above_five_fails_first() {
    let ops = [PickleOp::PROTO(6), PickleOp::POP];
    assert_eq!(evaluate(&ops, true).unwrap_err(), EvalError::UnsupportedProtocol { proto: 6 });
    let ops = [PickleOp::PROTO(5), PickleOp::EMPTY_LIST];
    assert!(evaluate(&ops, true).is_ok());
}

#[test]
fn empty_dict_end_to_end() {
    let ops = parse_ops(b"}.").unwrap();
    let (vals, memo) = evaluate(&ops, true).unwrap();
    assert_eq!(vals, vec![Value::Sequence(SequenceType::Dict, vec![])]);
    assert!(memo.0.is_empty());
}

#[test]
fn named_global_end_to_end() {
    let ops = parse_ops(b"cbuiltins\nint\n.").unwrap();
    let (vals, _) = evaluate(&ops, true).unwrap();
    assert_eq!(
        vals,
        vec![Value::Global(
            Box::new(tuple(vec![Value::String("builtins"), Value::String("int")])),
            vec![]
        )]
    );
}

#[test]
fn stop_ends_evaluation() {
    let ops = [PickleOp::NONE, PickleOp::STOP, PickleOp::POP, PickleOp::POP];
    let (vals, _) = evaluate(&ops, true).unwrap();
    assert_eq!(vals, vec![Value::NoneValue]);
}

#[test]
fn underflow_and_missing_mark() {
    assert_eq!(evaluate(&[PickleOp::POP], true).unwrap_err(), EvalError::StackUnderflow);
    assert_eq!(evaluate(&[PickleOp::DUP], true).unwrap_err(), EvalError::StackUnderflow);
    assert_eq!(evaluate(&[PickleOp::TUPLE], true).unwrap_err(), EvalError::MissingMark);
    let ops = [PickleOp::MARK, PickleOp::OBJ];
    assert_eq!(evaluate(&ops, true).unwrap_err(), EvalError::StackUnderflow);
}

#[test]
fn missing_memo_entry_is_an_error() {
    let ops = [PickleOp::BINGET(3)];
    assert_eq!(evaluate(&ops, true).unwrap_err(), EvalError::BadMemoId { id: 3 });
    let (raw, _) = evaluate(&ops, false).unwrap();
    assert_eq!(raw, vec![Value::Ref(3)]);
}

#[test]
fn memo_text_ids() {
    let ops = [PickleOp::NONE, PickleOp::PUT("12"), PickleOp::GET("+12")];
    let (vals, memo) = evaluate(&ops, true).unwrap();
    assert_eq!(vals, vec![Value::NoneValue, Value::NoneValue]);
    assert!(memo.0.contains_key(&12));
    let ops = [PickleOp::NONE, PickleOp::PUT("x1")];
    assert_eq!(evaluate(&ops, true).unwrap_err(), EvalError::BadMemoText);
    let ops = [PickleOp::NONE, PickleOp::PUT("4294967296")];
    assert_eq!(evaluate(&ops, true).unwrap_err(), EvalError::BadMemoText);
}

#[test]
fn appends_reach_through_references() {
    let ops = [
        PickleOp::EMPTY_LIST,
        PickleOp::BINPUT(0),
        PickleOp::MARK,
        PickleOp::BININT1(1),
        PickleOp::BININT1(2),
        PickleOp::APPENDS,
        PickleOp::BININT1(3),
        PickleOp::APPEND,
    ];
    let (raw, memo) = evaluate(&ops, false).unwrap();
    assert_eq!(raw, vec![Value::Ref(0)]);
    assert_eq!(
        memo.0.get(&0),
        Some(&Value::Sequence(
            SequenceType::List,
            vec![
                Value::Raw(PickleOp::BININT1(1)),
                Value::Raw(PickleOp::BININT1(2)),
                Value::Raw(PickleOp::BININT1(3)),
            ]
        ))
    );
    let (vals, _) = evaluate(&ops, true).unwrap();
    assert_eq!(
        vals,
        vec![Value::Sequence(
            SequenceType::List,
            vec![Value::Int(1), Value::Int(2), Value::Int(3)]
        )]
    );
}

#[test]
fn setitem_and_setitems_on_a_dict() {
    let ops = [
        PickleOp::EMPTY_DICT,
        PickleOp::BINUNICODE("a"),
        PickleOp::BININT1(1),
        PickleOp::SETITEM,
        PickleOp::MARK,
        PickleOp::BINUNICODE("b"),
        PickleOp::BININT1(2),
        PickleOp::SETITEMS,
    ];
    let (vals, _) = evaluate(&ops, true).unwrap();
    assert_eq!(
        vals,
        vec![Value::Sequence(
            SequenceType::Dict,
            vec![
                tuple(vec![Value::String("a"), Value::Int(1)]),
                tuple(vec![Value::String("b"), Value::Int(2)]),
            ]
        )]
    );
}

#[test]
fn setitems_adds_each_pair_through_a_reference() {
    let ops = [
        PickleOp::EMPTY_DICT,
        PickleOp::BINPUT(0),
        PickleOp::MARK,
        PickleOp::BINUNICODE("a"),
        PickleOp::BININT1(1),
        PickleOp::BINUNICODE("b"),
        PickleOp::BININT1(2),
        PickleOp::SETITEMS,
    ];
    let (raw, memo) = evaluate(&ops, false).unwrap();
    assert_eq!(raw, vec![Value::Ref(0)]);
    assert_eq!(
        memo.0.get(&0),
        Some(&Value::Sequence(
            SequenceType::Dict,
            vec![
                tuple(vec![Value::Raw(PickleOp::BINUNICODE("a")), Value::Raw(PickleOp::BININT1(1))]),
                tuple(vec![Value::Raw(PickleOp::BINUNICODE("b")), Value::Raw(PickleOp::BININT1(2))]),
            ]
        ))
    );
    let odd = [PickleOp::EMPTY_DICT, PickleOp::MARK, PickleOp::NONE, PickleOp::SETITEMS];
    assert_eq!(evaluate(&odd, true).unwrap_err(), EvalError::OddKeyValueList);
}

#[test]
fn reduce_build_and_objects() {
    let ops = parse_ops(b"\x80\x02ccollections\nOrderedDict\n)R}b.").unwrap();
    let (vals, _) = evaluate(&ops, true).unwrap();
    let callee = Value::Global(
        Box::new(tuple(vec![Value::String("collections"), Value::String("OrderedDict")])),
        vec![],
    );
    assert_eq!(
        vals,
        vec![Value::Build(
            Box::new(Value::Global(Box::new(callee), vec![tuple(vec![])])),
            Box::new(Value::Sequence(SequenceType::Dict, vec![])),
        )]
    );
    let ops = [
        PickleOp::BINUNICODE("m"),
        PickleOp::BINUNICODE("n"),
        PickleOp::STACK_GLOBAL,
        PickleOp::EMPTY_TUPLE,
        PickleOp::NEWOBJ,
    ];
    let (vals, _) = evaluate(&ops, true).unwrap();
    assert_eq!(
        vals,
        vec![Value::Object(
            Box::new(Value::Global(
                Box::new(tuple(vec![Value::String("m"), Value::String("n")])),
                vec![]
            )),
            vec![tuple(vec![])]
        )]
    );
    let ops = [PickleOp::MARK, PickleOp::NONE, PickleOp::BININT1(4), PickleOp::OBJ];
    let (vals, _) = evaluate(&ops, true).unwrap();
    assert_eq!(
        vals,
        vec![Value::Object(Box::new(Value::NoneValue), vec![Value::Int(4)])]
    );
    let ops = [PickleOp::MARK, PickleOp::NONE, PickleOp::INST("m", "C")];
    let (vals, _) = evaluate(&ops, true).unwrap();
    assert_eq!(
        vals,
        vec![Value::Object(
            Box::new(tuple(vec![Value::String("m"), Value::String("C")])),
            vec![Value::NoneValue]
        )]
    );
}

#[test]
fn persistent_ids_and_memoize() {
    let ops = [PickleOp::PERSID("0"), PickleOp::MEMOIZE, PickleOp::NONE, PickleOp::BINPERSID];
    let (vals, memo) = evaluate(&ops, true).unwrap();
    assert_eq!(
        vals,
        vec![
            Value::PersId(Box::new(Value::String("0"))),
            Value::PersId(Box::new(Value::NoneValue)),
        ]
    );
    assert_eq!(memo.0.get(&0), Some(&Value::PersId(Box::new(Value::String("0")))));
}

#[test]
fn stack_and_memo_methods() {
    let mut stack = PickleStack::new();
    assert_eq!(stack.pop().unwrap_err(), EvalError::StackUnderflow);
    stack.push(Value::Int(1));
    stack.push(Value::Raw(PickleOp::MARK));
    stack.push(Value::Int(2));
    assert_eq!(stack.find_mark().unwrap(), 1);
    assert_eq!(stack.pop_mark().unwrap(), vec![Value::Int(2)]);
    assert_eq!(stack.0, vec![Value::Int(1)]);
    assert_eq!(stack.pop_mark().unwrap_err(), EvalError::MissingMark);
    let mut memo = PickleMemo::new();
    memo.insert(1, Value::Ref(2));
    memo.insert(2, Value::Int(9));
    assert_eq!(memo.len(), 2);
    assert_eq!(memo.resolve(Value::Ref(1), true).unwrap(), Value::Int(9));
    assert_eq!(memo.resolve_mut(&Value::Ref(1), true).unwrap(), Some(2));
    assert_eq!(memo.resolve_mut(&Value::Ref(1), false).unwrap(), Some(2));
    assert_eq!(memo.resolve_mut(&Value::Int(0), true).unwrap(), None);
    assert_eq!(
        memo.resolve_mut(&Value::Ref(7), true).unwrap_err(),
        EvalError::BadMemoId { id: 7 }
    );
    let deep = memo.resolve_all_refs(MAX_DEPTH, Value::Ref(1), true).unwrap();
    assert_eq!(deep, Value::Ref(1));
    let all = memo
        .resolve_all_refs_iter(0, vec![Value::Ref(1), Value::Raw(PickleOp::BININT2(5))], true)
        .unwrap();
    assert_eq!(all, vec![Value::Int(9), Value::Int(5)]);
}
