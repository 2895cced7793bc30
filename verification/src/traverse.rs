//! The traversal engine: walks a value along a pointer's tokens to the
//! existing node they name, or to the insertion slot named by the append
//! marker.

use vstd::prelude::*;
use crate::pointer::{steps_model, SpecStep, Step};
use crate::value::{spec_lookup, spec_lookup_index, lemma_lookup_index, SpecValue, Value};

verus! {

/// What a traversal ends up at: an existing node, or the append slot of a
/// sequence (the parent sequence and the index one past its last element).
pub enum ValuePointer<'a> {
    /// The existing value found by the pointer.
    Existing(&'a Value),
    /// A pointer to a new element of the sequence found by the pointer: the
    /// parent sequence and the index to add the element at (its length).
    NewUnder(&'a Value, usize),
}

/// The mathematical form of a traversal result.
pub ghost enum SpecResolved {
    Existing(SpecValue),
    NewUnder(SpecValue, int),
}

/// Resolves `steps` against `v`, one token per level: a name walks into a
/// map, an index walks into a sequence, and the append marker — legal only as
/// the last token — names the append slot of a sequence. A missing key, an
/// out-of-range index, a token against the wrong shape of value, or a
/// non-terminal append marker all yield `None`.
pub open spec fn spec_resolve(v: SpecValue, steps: Seq<SpecStep>) -> Option<SpecResolved>
    decreases steps.len(),
{
    if steps.len() == 0 {
        Some(SpecResolved::Existing(v))
    } else {
        match steps[0] {
            SpecStep::Name(n) => match v {
                SpecValue::Object(entries) => match spec_lookup(entries, n) {
                    Some(child) => spec_resolve(child, steps.drop_first()),
                    None => None,
                },
                _ => None,
            },
            SpecStep::Index(i) => match v {
                SpecValue::Array(elems) => if 0 <= i < elems.len() {
                    spec_resolve(elems[i], steps.drop_first())
                } else {
                    None
                },
                _ => None,
            },
            SpecStep::NewElement => match v {
                SpecValue::Array(elems) => if steps.len() == 1 {
                    Some(SpecResolved::NewUnder(v, elems.len() as int))
                } else {
                    None
                },
                _ => None,
            },
        }
    }
}

/// A pointer that holds the append marker anywhere but as its very last
/// token resolves to nothing, against every value.
pub proof fn lemma_new_element_only_terminal(v: SpecValue, steps: Seq<SpecStep>, i: int)
    requires
        0 <= i < steps.len() - 1,
        steps[i] is NewElement,
    ensures
        spec_resolve(v, steps) is None,
    decreases steps.len(),
{
    if i > 0 {
        match steps[0] {
            SpecStep::Name(n) => match v {
                SpecValue::Object(entries) => match spec_lookup(entries, n) {
                    Some(child) => {
                        lemma_new_element_only_terminal(child, steps.drop_first(), i - 1);
                    },
                    None => {},
                },
                _ => {},
            },
            SpecStep::Index(k) => match v {
                SpecValue::Array(elems) => {
                    if 0 <= k < elems.len() {
                        lemma_new_element_only_terminal(elems[k], steps.drop_first(), i - 1);
                    }
                },
                _ => {},
            },
            SpecStep::NewElement => {},
        }
    }
}

/// What a mutating traversal did at the location it resolved: replaced an
/// existing node (handing back the value that stood there), or appended at
/// the append slot of a sequence (naming the index the element went in at).
pub enum ValuePointerMut {
    /// The value that stood at the located, now rewritten, node.
    Existing(Value),
    /// The index at which the new element was appended: the length the
    /// parent sequence had before the call.
    NewUnder(usize),
}

/// The value tree after writing `nv` at the location `steps` resolves to in
/// `v`: the located node is replaced, or, under a terminal append marker,
/// `nv` is appended to the located sequence. Where `steps` resolves to
/// nothing, the tree is unchanged.
pub open spec fn spec_write(v: SpecValue, steps: Seq<SpecStep>, nv: SpecValue) -> SpecValue
    decreases steps.len(),
{
    if steps.len() == 0 {
        nv
    } else {
        match steps[0] {
            SpecStep::Name(n) => match v {
                SpecValue::Object(entries) => {
                    let j = spec_lookup_index(entries, n);
                    if j == -1 {
                        v
                    } else {
                        SpecValue::Object(
                            entries.update(
                                j,
                                (entries[j].0, spec_write(entries[j].1, steps.drop_first(), nv)),
                            ),
                        )
                    }
                },
                _ => v,
            },
            SpecStep::Index(i) => match v {
                SpecValue::Array(elems) => if 0 <= i < elems.len() {
                    SpecValue::Array(elems.update(i, spec_write(elems[i], steps.drop_first(), nv)))
                } else {
                    v
                },
                _ => v,
            },
            SpecStep::NewElement => match v {
                SpecValue::Array(elems) => if steps.len() == 1 {
                    SpecValue::Array(elems.push(nv))
                } else {
                    v
                },
                _ => v,
            },
        }
    }
}

/// The first position in `entries` whose key reads as `name`, if any.
fn find_key(entries: &Vec<(String, Value)>, name: &String) -> (r: Option<usize>)
    ensures
        match r {
            Some(j) => j < entries@.len() && entries@[j as int].0@ == name@ && forall|m: int|
                0 <= m < j ==> entries@[m].0@ != name@,
            None => forall|m: int| 0 <= m < entries@.len() ==> entries@[m].0@ != name@,
        },
{
    let mut j: usize = 0;
    while j < entries.len()
        invariant
            j <= entries@.len(),
            forall|m: int| 0 <= m < j ==> entries@[m].0@ != name@,
        decreases entries@.len() - j,
    {
        if entries[j].0 == *name {
            return Some(j);
        }
        j = j + 1;
    }
    None
}

/// The read-only walk, from token position `i` on.
#[verifier::loop_isolation(false)]
pub(crate) fn resolve_from<'a>(v: &'a Value, steps: &Vec<Step>, i: usize) -> (r: Option<
    ValuePointer<'a>,
>)
    requires
        i <= steps@.len(),
    ensures
        ({
            let rem = steps_model(steps@).skip(i as int);
            match spec_resolve(v@, rem) {
                Some(SpecResolved::Existing(sv)) => r matches Some(ValuePointer::Existing(f))
                    && f@ == sv,
                Some(SpecResolved::NewUnder(pv, idx)) => r matches Some(
                    ValuePointer::NewUnder(p, j),
                ) && p@ == pv && j == idx,
                None => r is None,
            }
        }),
    decreases steps@.len() - i,
{
    let ghost rem = steps_model(steps@).skip(i as int);
    if i == steps.len() {
        return Some(ValuePointer::Existing(v));
    }
    proof {
        assert(rem[0] == steps@[i as int]@);
        assert(rem.drop_first() =~= steps_model(steps@).skip(i + 1));
    }
    match &steps[i] {
        Step::Name(name) => match v {
            Value::Object(entries) => {
                let ghost es = v@->Object_0;
                let mut j: usize = 0;
                while j < entries.len()
                    invariant
                        j <= entries@.len(),
                        es.len() == entries@.len(),
                        forall|m: int| 0 <= m < entries@.len() ==> es[m]
                            == (entries@[m].0@, entries@[m].1@),
                        forall|m: int| 0 <= m < j ==> es[m].0 != name@,
                    decreases entries@.len() - j,
                {
                    if entries[j].0 == *name {
                        proof {
                            assert(v@ == SpecValue::Object(es));
                            assert(es[j as int].0 == name@);
                            lemma_lookup_index(es, name@);
                            assert(spec_lookup_index(es, name@) == j);
                            assert(spec_lookup(es, name@) == Some(es[j as int].1));
                        }
                        return resolve_from(&entries[j].1, steps, i + 1);
                    }
                    j = j + 1;
                }
                proof {
                    assert(v@ == SpecValue::Object(es));
                    lemma_lookup_index(es, name@);
                    assert(spec_lookup(es, name@) is None);
                }
                None
            },
            _ => None,
        },
        Step::Index(idx) => match v {
            Value::Array(elems) => {
                let ghost el = v@->Array_0;
                proof {
                    assert(el.len() == elems@.len());
                }
                if *idx < elems.len() {
                    proof {
                        assert(el[*idx as int] == elems@[*idx as int]@);
                    }
                    resolve_from(&elems[*idx], steps, i + 1)
                } else {
                    None
                }
            },
            _ => None,
        },
        Step::NewElement => match v {
            Value::Array(elems) => {
                if i + 1 == steps.len() {
                    Some(ValuePointer::NewUnder(v, elems.len()))
                } else {
                    None
                }
            },
            _ => None,
        },
    }
}

/// The mutating walk, from token position `i` on: writes `new` at the
/// location the remaining tokens resolve to, in place.
pub(crate) fn write_from(v: &mut Value, steps: &Vec<Step>, i: usize, new: Value) -> (r: Option<
    ValuePointerMut,
>)
    requires
        i <= steps@.len(),
    ensures
        ({
            let rem = steps_model(steps@).skip(i as int);
            match spec_resolve(old(v)@, rem) {
                Some(SpecResolved::Existing(sv)) => r matches Some(ValuePointerMut::Existing(prev))
                    && prev@ == sv && final(v)@ == spec_write(old(v)@, rem, new@),
                Some(SpecResolved::NewUnder(pv, idx)) => r matches Some(
                    ValuePointerMut::NewUnder(j),
                ) && j == idx && final(v)@ == spec_write(old(v)@, rem, new@),
                None => r is None && final(v)@ == old(v)@,
            }
        }),
    decreases steps@.len() - i,
{
    let ghost rem = steps_model(steps@).skip(i as int);
    if i == steps.len() {
        let mut prev = new;
        core::mem::swap(v, &mut prev);
        return Some(ValuePointerMut::Existing(prev));
    }
    proof {
        assert(rem[0] == steps@[i as int]@);
        assert(rem.drop_first() =~= steps_model(steps@).skip(i + 1));
    }
    match &steps[i] {
        Step::Name(name) => match v {
            Value::Object(entries) => {
                let ghost es = old(v)@->Object_0;
                proof {
                    assert(old(v)@ == SpecValue::Object(es));
                    assert(es.len() == entries@.len());
                    assert forall|m: int| 0 <= m < entries@.len() implies es[m] == (
                        entries@[m].0@,
                        entries@[m].1@,
                    ) by {}
                }
                match find_key(entries, name) {
                    Some(j) => {
                        proof {
                            lemma_lookup_index(es, name@);
                            assert(es[j as int].0 == name@);
                            let li = spec_lookup_index(es, name@);
                            if li == -1 {
                                assert(false);
                            } else if li < j {
                                assert(es[li].0 == name@);
                                assert(entries@[li].0@ != name@);
                                assert(false);
                            } else if li > j {
                                assert(es[j as int].0 != name@);
                                assert(false);
                            }
                            assert(spec_lookup_index(es, name@) == j);
                        }
                        let ghost entries0 = entries@;
                        let mut pair = entries.remove(j);
                        let res = write_from(&mut pair.1, steps, i + 1, new);
                        entries.insert(j, pair);
                        proof {
                            assert(*final(v) == Value::Object(*final(entries)));
                            assert(entries@ =~= entries0.update(j as int, entries@[j as int]));
                            assert(final(v)@->Object_0 =~= es.update(
                                j as int,
                                (es[j as int].0, entries@[j as int].1@),
                            ));
                            if spec_resolve(es[j as int].1, rem.drop_first()) is Some {
                                assert(final(v)@ =~= spec_write(old(v)@, rem, new@));
                            } else {
                                assert(es.update(
                                    j as int,
                                    (es[j as int].0, entries@[j as int].1@),
                                ) =~= es);
                                assert(final(v)@ =~= old(v)@);
                            }
                        }
                        res
                    },
                    None => {
                        proof {
                            lemma_lookup_index(es, name@);
                            assert(spec_lookup(es, name@) is None);
                        }
                        None
                    },
                }
            },
            _ => None,
        },
        Step::Index(idx) => match v {
            Value::Array(elems) => {
                let ghost el = old(v)@->Array_0;
                proof {
                    assert(old(v)@ == SpecValue::Array(el));
                    assert(el.len() == elems@.len());
                }
                if *idx < elems.len() {
                    proof {
                        assert(el[*idx as int] == elems@[*idx as int]@);
                    }
                    let ghost elems0 = elems@;
                    let mut child = elems.remove(*idx);
                    let res = write_from(&mut child, steps, i + 1, new);
                    elems.insert(*idx, child);
                    proof {
                        assert(*final(v) == Value::Array(*final(elems)));
                        assert(elems@ =~= elems0.update(*idx as int, elems@[*idx as int]));
                        assert(final(v)@->Array_0 =~= el.update(
                            *idx as int,
                            elems@[*idx as int]@,
                        ));
                        if spec_resolve(el[*idx as int], rem.drop_first()) is Some {
                            assert(final(v)@ =~= spec_write(old(v)@, rem, new@));
                        } else {
                            assert(el.update(*idx as int, elems@[*idx as int]@) =~= el);
                            assert(final(v)@ =~= old(v)@);
                        }
                    }
                    res
                } else {
                    None
                }
            },
            _ => None,
        },
        Step::NewElement => match v {
            Value::Array(elems) => {
                let ghost el = old(v)@->Array_0;
                if i + 1 == steps.len() {
                    let at = elems.len();
                    elems.push(new);
                    proof {
                        assert(rem.len() == 1);
                        assert(final(v)@ == SpecValue::Array(el.push(new@))) by {
                            assert(final(v)@->Array_0 =~= el.push(new@));
                        }
                    }
                    Some(ValuePointerMut::NewUnder(at))
                } else {
                    None
                }
            },
            _ => None,
        },
    }
}

} // verus!
