//! The tree-shaped value a pointer is resolved against: maps keyed by string,
//! ordered sequences, and scalars with no children.

use vstd::prelude::*;

verus! {

broadcast use vstd::std_specs::vec::axiom_vec_decreases_to_view, vstd::seq::axiom_seq_index_decreases;

/// A tree-shaped value. A map is kept as an ordered list of key/value entries;
/// a lookup takes the first entry whose key matches, so a map whose keys are
/// distinct behaves as a plain string-keyed map.
#[derive(Debug, PartialEq, Eq)]
pub enum Value {
    /// A map from string keys to child values.
    Object(Vec<(String, Value)>),
    /// An ordered sequence of child values.
    Array(Vec<Value>),
    /// A scalar: a string.
    Text(String),
    /// A scalar: an integer.
    Int(i64),
    /// A scalar: a boolean.
    Bool(bool),
    /// A scalar: the absence of a value.
    Null,
}

/// The mathematical form of a `Value`.
#[verifier::ext_equal]
pub ghost enum SpecValue {
    Object(Seq<(Seq<char>, SpecValue)>),
    Array(Seq<SpecValue>),
    Text(Seq<char>),
    Int(int),
    Bool(bool),
    Null,
}

/// The mathematical form of a concrete `Value`.
pub open spec fn value_model(v: Value) -> SpecValue
    decreases v,
    via value_model_decreases
{
    match v {
        Value::Object(entries) => SpecValue::Object(
            Seq::new(
                entries@.len(),
                |i: int|
                    if 0 <= i < entries@.len() {
                        (entries@[i].0@, value_model(entries@[i].1))
                    } else {
                        (Seq::<char>::empty(), SpecValue::Null)
                    },
            ),
        ),
        Value::Array(elems) => SpecValue::Array(
            Seq::new(
                elems@.len(),
                |i: int|
                    if 0 <= i < elems@.len() {
                        value_model(elems@[i])
                    } else {
                        SpecValue::Null
                    },
            ),
        ),
        Value::Text(s) => SpecValue::Text(s@),
        Value::Int(n) => SpecValue::Int(n as int),
        Value::Bool(b) => SpecValue::Bool(b),
        Value::Null => SpecValue::Null,
    }
}

#[via_fn]
proof fn value_model_decreases(v: Value) {
    broadcast use vstd::std_specs::vec::axiom_vec_decreases_to_view;
    broadcast use vstd::seq::axiom_seq_index_decreases;

    match v {
        Value::Object(entries) => {
            assert forall|i: int| 0 <= i < entries@.len() implies decreases_to!(
                v => entries@[i].1) by {
                assert(decreases_to!(entries => entries@));
                assert(decreases_to!(entries@ => entries@[i]));
            }
        },
        Value::Array(elems) => {
            assert forall|i: int| 0 <= i < elems@.len() implies decreases_to!(
                v => elems@[i]) by {
                assert(decreases_to!(elems => elems@));
                assert(decreases_to!(elems@ => elems@[i]));
            }
        },
        _ => {},
    }
}

impl View for Value {
    type V = SpecValue;

    open spec fn view(&self) -> SpecValue {
        value_model(*self)
    }
}

/// The first position in `entries` holding the key `key`, if any.
pub open spec fn spec_lookup_index(entries: Seq<(Seq<char>, SpecValue)>, key: Seq<char>) -> int
    decreases entries.len(),
{
    if entries.len() == 0 {
        -1
    } else if entries[0].0 == key {
        0
    } else {
        let rest = spec_lookup_index(entries.drop_first(), key);
        if rest == -1 {
            -1
        } else {
            rest + 1
        }
    }
}

/// The value under the key `key` in `entries`: the first matching entry wins.
pub open spec fn spec_lookup(entries: Seq<(Seq<char>, SpecValue)>, key: Seq<char>) -> Option<
    SpecValue,
> {
    if spec_lookup_index(entries, key) == -1 {
        None
    } else {
        Some(entries[spec_lookup_index(entries, key)].1)
    }
}

/// `spec_lookup_index` returns `-1` exactly when no entry holds the key, and
/// otherwise the first position that does.
pub proof fn lemma_lookup_index(entries: Seq<(Seq<char>, SpecValue)>, key: Seq<char>)
    ensures
        spec_lookup_index(entries, key) == -1 ==> forall|i: int|
            0 <= i < entries.len() ==> entries[i].0 != key,
        spec_lookup_index(entries, key) != -1 ==> {
            &&& 0 <= spec_lookup_index(entries, key) < entries.len()
            &&& entries[spec_lookup_index(entries, key)].0 == key
            &&& forall|i: int| 0 <= i < spec_lookup_index(entries, key) ==> entries[i].0 != key
        },
    decreases entries.len(),
{
    if entries.len() > 0 && entries[0].0 != key {
        lemma_lookup_index(entries.drop_first(), key);
        assert(forall|i: int|
            1 <= i < entries.len() ==> entries[i] == entries.drop_first()[i - 1]);
    }
}

} // verus!
