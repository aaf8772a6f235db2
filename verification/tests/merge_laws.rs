use rvb::merge::{dumb_merge, merge, DumbMergePriority, StateMap};
use rvb::value::{DbValue, ValueMap};

fn num(n: i128) -> DbValue {
    DbValue::Number(n)
}

#[test]
fn test_keys_on_one_side_pass_through_unchanged() {
    // versioned merge of {a:1} and {b:2} under empty clocks is {a:1, b:2}.
    let mut target = ValueMap::new();
    target.insert("a".to_string(), num(1));
    let mut from = ValueMap::new();
    from.insert("b".to_string(), num(2));

    merge(&mut target, &from, &StateMap::new(), &StateMap::new());

    assert_eq!(target.get("a"), Some(&num(1)));
    assert_eq!(target.get("b"), Some(&num(2)));
    assert_eq!(target.len(), 2);
}

#[test]
fn test_newer_from_clock_deep_merges_nested_mappings() {
    // {obj:{x:1}} merged with {obj:{y:2}} under clocks obj:1 vs obj:2 gives a
    // field-level merge {obj:{x:1, y:2}}, not a replacement.
    let mut target_inner = ValueMap::new();
    target_inner.insert("x".to_string(), num(1));
    let mut target = ValueMap::new();
    target.insert("obj".to_string(), DbValue::Object(target_inner));

    let mut from_inner = ValueMap::new();
    from_inner.insert("y".to_string(), num(2));
    let mut from = ValueMap::new();
    from.insert("obj".to_string(), DbValue::Object(from_inner));

    let mut target_state = StateMap::new();
    target_state.insert("obj".to_string(), 1);
    let mut from_state = StateMap::new();
    from_state.insert("obj".to_string(), 2);

    merge(&mut target, &from, &target_state, &from_state);

    let obj = match target.get("obj").unwrap() {
        DbValue::Object(map) => map,
        _ => panic!("Expected object"),
    };
    assert_eq!(obj.get("x"), Some(&num(1)));
    assert_eq!(obj.get("y"), Some(&num(2)));
}

#[test]
fn test_target_priority_never_overwrites_nested_values() {
    // Under Target priority an existing key keeps its value at every depth;
    // only missing keys are added.
    let mut target_inner = ValueMap::new();
    target_inner.insert("x".to_string(), num(1));
    let mut target = ValueMap::new();
    target.insert("o".to_string(), DbValue::Object(target_inner));

    let mut from_inner = ValueMap::new();
    from_inner.insert("x".to_string(), num(9));
    from_inner.insert("z".to_string(), num(2));
    let mut from = ValueMap::new();
    from.insert("o".to_string(), DbValue::Object(from_inner));

    dumb_merge(&mut target, &from, DumbMergePriority::Target);

    let obj = match target.get("o").unwrap() {
        DbValue::Object(map) => map,
        _ => panic!("Expected object"),
    };
    assert_eq!(obj.get("x"), Some(&num(1)));
    assert_eq!(obj.get("z"), Some(&num(2)));
}

#[test]
fn test_equal_clocks_tie_break_is_byte_order_not_magnitude() {
    // The tie-break compares whole canonical encodings, byte by byte.
    let mut target = ValueMap::new();
    target.insert("a".to_string(), num(-1));
    let mut from = ValueMap::new();
    from.insert("a".to_string(), num(1));
    let mut states = StateMap::new();
    states.insert("a".to_string(), 3);

    merge(&mut target, &from, &states, &states.clone());

    // -1 encodes as all-ones bytes, which compare greater than 1's encoding.
    assert_eq!(target.get("a"), Some(&num(-1)));
}
