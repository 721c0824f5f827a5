use repugnant_pickle::torch::{
    checkpoint_dict, place_tensor, tensor_entry, TensorType, TorchError,
};
use repugnant_pickle::{SequenceType, Value};

fn tuple<'a>(items: Vec<Value<'a>>) -> Value<'a> {
    Value::Sequence(SequenceType::Tuple, items)
}

fn named<'a>(module: &'a str, name: &'a str) -> Value<'a> {
    Value::Global(Box::new(tuple(vec![Value::String(module), Value::String(name)])), vec![])
}

fn rebuild<'a>(offset: i64) -> Value<'a> {
    let pid = tuple(vec![
        Value::String("storage"),
        named("torch", "BFloat16Storage"),
        Value::String("0"),
        Value::String("cuda:0"),
        Value::Int(1000),
    ]);
    let args = tuple(vec![
        Value::PersId(Box::new(pid)),
        Value::Int(offset),
        tuple(vec![Value::Int(2), Value::Int(3)]),
        tuple(vec![Value::Int(3), Value::Int(1)]),
        Value::Bool(false),
    ]);
    Value::Global(Box::new(named("torch._utils", "_rebuild_tensor_v2")), vec![args])
}

#[test]
fn ordered_dict_items_are_found() {
    let pairs = vec![
        tuple(vec![]),
        tuple(vec![Value::String("w"), rebuild(4)]),
        tuple(vec![Value::String("step"), Value::Int(1)]),
    ];
    let od = Value::Global(Box::new(named("collections", "OrderedDict")), pairs);
    let vals = vec![Value::Build(Box::new(od), Box::new(Value::NoneValue))];
    let found = checkpoint_dict(&vals).unwrap();
    assert_eq!(found.len(), 2);
    assert!(tensor_entry(&found[0]).unwrap().is_some());
    assert!(tensor_entry(&found[1]).unwrap().is_none());
    let plain = vec![Value::Sequence(SequenceType::Dict, vec![])];
    assert_eq!(checkpoint_dict(&plain).unwrap().len(), 0);
    let bad = vec![Value::Int(1)];
    assert_eq!(checkpoint_dict(&bad).unwrap_err(), TorchError::UnexpectedTopLevel);
    let list = vec![Value::Sequence(SequenceType::List, vec![])];
    assert_eq!(checkpoint_dict(&list).unwrap_err(), TorchError::UnexpectedDictionary);
}

#[test]
fn tensor_entry_reads_a_rebuild_call() {
    let item = tuple(vec![Value::String("emb.weight"), rebuild(4)]);
    let e = tensor_entry(&item).unwrap().unwrap();
    assert_eq!(e.name, "emb.weight");
    assert_eq!(e.device, "cuda:0");
    assert_eq!(e.storage_type, "BFloat16");
    assert_eq!(e.storage_key, "0");
    assert_eq!(e.storage_len, 1000);
    assert_eq!(e.offset, 4);
    assert_eq!(e.shape, vec![2, 3]);
    assert_eq!(e.stride, vec![3, 1]);
    assert!(!e.requires_grad);
    let t = place_tensor(e, "archive/data/0".to_string(), 100).unwrap();
    assert_eq!(t.tensor_type, TensorType::BFloat16);
    assert_eq!(t.storage_offset, 8);
    assert_eq!(t.absolute_offset, 108);
    assert_eq!(t.storage, "archive/data/0");
}

#[test]
fn other_entries_are_skipped_or_refused() {
    let item = tuple(vec![Value::String("step"), Value::Int(3)]);
    assert!(tensor_entry(&item).unwrap().is_none());
    let item = tuple(vec![Value::Int(1), rebuild(0)]);
    assert_eq!(tensor_entry(&item).unwrap_err(), TorchError::KeyNotString);
    let item = tuple(vec![Value::String("a")]);
    assert_eq!(tensor_entry(&item).unwrap_err(), TorchError::BadItem);
    let item = tuple(vec![Value::String("a"), rebuild(-1)]);
    assert_eq!(tensor_entry(&item).unwrap_err(), TorchError::BadOffset);
}

#[test]
fn placing_checks_for_overflow() {
    let item = tuple(vec![Value::String("w"), rebuild(i64::MAX)]);
    let e = tensor_entry(&item).unwrap().unwrap();
    let t = place_tensor(e, "s".to_string(), 1).unwrap();
    assert_eq!(t.storage_offset, u64::MAX - 1);
    assert_eq!(t.absolute_offset, u64::MAX);
    let e = tensor_entry(&item).unwrap().unwrap();
    assert_eq!(place_tensor(e, "s".to_string(), 2).unwrap_err(), TorchError::BadOffset);
}
