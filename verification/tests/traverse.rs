use json_pointer::{Pointer, Step, Value, ValuePointer, ValuePointerMut};
use std::str::FromStr;

fn sample_map(seq_items: Vec<Value>) -> Value {
    Value::Object(vec![
        ("k1".to_owned(), Value::Text("v1".to_owned())),
        ("k2".to_owned(), Value::Array(seq_items)),
    ])
}

#[test]
fn finds_all_data() {
    let val = Value::Object(Vec::new());
    assert_eq!(&val, Pointer::from_str("#").unwrap().find(&val).unwrap());
}

#[test]
fn finds_concrete_data() {
    let val = sample_map(vec![Value::Int(42), Value::Bool(true)]);

    assert_eq!(
        Value::Bool(true),
        *Pointer::from_str("/k2/1").unwrap().find(&val).unwrap()
    );
}

#[test]
fn find_new_element() {
    let val = sample_map(vec![Value::Bool(true)]);

    let found = Pointer::from_str("/k2/-").unwrap().traverse(&val).unwrap();
    match found {
        ValuePointer::NewUnder(parent, idx) => {
            assert_eq!(1, idx);
            match parent {
                Value::Array(ar) => {
                    assert_eq!(1, ar.len());
                }
                _ => panic!("Should have found an array of size 1"),
            }
        }
        _ => panic!("Should have found value pointer to a new value."),
    }
}

#[test]
fn can_mutate() {
    let mut val = sample_map(vec![Value::Bool(true)]);

    let found = Pointer::from_str("/k2/0")
        .unwrap()
        .traverse_mut(&mut val, Value::Text("boo".to_owned()))
        .unwrap();

    match found {
        ValuePointerMut::Existing(prev) => {
            assert_eq!(Value::Bool(true), prev);
        }
        _ => panic!("Should have found a value pointer to an existing value."),
    }

    match val {
        Value::Object(entries) => {
            let k2 = &entries
                .iter()
                .find(|e| e.0 == "k2")
                .expect("Should see the map")
                .1;
            match k2 {
                Value::Array(seq) => match &seq[0] {
                    Value::Text(s) => {
                        assert_eq!(s.as_str(), "boo");
                    }
                    _ => panic!("Should have found a string"),
                },
                _ => panic!("Should have found a seq"),
            };
        }
        _ => panic!("Should see the map"),
    }
}

#[test]
fn mutate_appends_under_new_element() {
    let mut val = sample_map(vec![Value::Bool(true)]);

    let found = Pointer::from_str("/k2/-")
        .unwrap()
        .traverse_mut(&mut val, Value::Int(7))
        .unwrap();

    match found {
        ValuePointerMut::NewUnder(idx) => assert_eq!(1, idx),
        _ => panic!("Should have appended a new element."),
    }

    assert_eq!(
        Value::Int(7),
        *Pointer::from_str("/k2/1").unwrap().find(&val).unwrap()
    );
}

#[test]
fn mutate_miss_leaves_value_alone() {
    let mut val = sample_map(vec![Value::Bool(true)]);
    let before = sample_map(vec![Value::Bool(true)]);

    let r = Pointer::from_str("/nope/3")
        .unwrap()
        .traverse_mut(&mut val, Value::Null);
    assert!(r.is_none());
    assert_eq!(before, val);
}

#[test]
fn new_element_must_be_terminal() {
    let ptr = Pointer::from_steps(vec![
        Step::Index(0),
        Step::NewElement,
        Step::Name("x".to_owned()),
    ]);
    let val = Value::Array(vec![Value::Array(vec![Value::Bool(false)])]);
    assert!(ptr.traverse(&val).is_none());
    assert!(ptr.find(&val).is_none());
}

#[test]
fn missing_key_is_none() {
    let val = sample_map(vec![]);
    assert!(Pointer::from_str("/k3").unwrap().find(&val).is_none());
}

#[test]
fn index_out_of_range_is_none() {
    let val = sample_map(vec![Value::Bool(true)]);
    assert!(Pointer::from_str("/k2/1").unwrap().find(&val).is_none());
}

#[test]
fn shape_mismatch_is_none() {
    let val = sample_map(vec![Value::Bool(true)]);
    // an index against a map, a name against a sequence, anything against a scalar
    assert!(Pointer::from_str("/0").unwrap().find(&val).is_none());
    assert!(Pointer::from_str("/k2/a").unwrap().find(&val).is_none());
    assert!(Pointer::from_str("/k1/x").unwrap().find(&val).is_none());
}

#[test]
fn find_discards_new_under() {
    let val = sample_map(vec![Value::Bool(true)]);
    assert!(Pointer::from_str("/k2/-").unwrap().find(&val).is_none());
}

#[test]
fn escaped_names_traverse() {
    let val = Value::Object(vec![
        ("a/b".to_owned(), Value::Int(1)),
        ("m~n".to_owned(), Value::Int(2)),
    ]);
    assert_eq!(
        Value::Int(1),
        *Pointer::from_str("/a~1b").unwrap().find(&val).unwrap()
    );
    assert_eq!(
        Value::Int(2),
        *Pointer::from_str("/m~0n").unwrap().find(&val).unwrap()
    );
}
