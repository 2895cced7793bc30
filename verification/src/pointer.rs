//! The token model: a single reference token (`Step`) and the ordered token
//! sequence (`Pointer`) that makes up an RFC 6901 JSON Pointer.

use vstd::prelude::*;
use crate::traverse::{spec_resolve, spec_write, SpecResolved, ValuePointer, ValuePointerMut};
use crate::value::Value;

verus! {

/// A single traversal step of a pointer: a map key, a sequence index, or the
/// append marker `-`.
#[derive(Debug, Clone, PartialEq, Eq)]
pub enum Step {
    Name(String),
    Index(usize),
    NewElement,
}

/// The mathematical form of a `Step`: names as character sequences, indices as
/// unbounded integers.
pub ghost enum SpecStep {
    Name(Seq<char>),
    Index(int),
    NewElement,
}

impl View for Step {
    type V = SpecStep;

    open spec fn view(&self) -> SpecStep {
        match self {
            Step::Name(s) => SpecStep::Name(s@),
            Step::Index(i) => SpecStep::Index(*i as int),
            Step::NewElement => SpecStep::NewElement,
        }
    }
}

/// A pointer to a location in a tree-shaped value, per RFC 6901: an ordered
/// sequence of steps, root first. The empty sequence names the root itself.
#[derive(Debug, Clone, PartialEq, Eq)]
pub struct Pointer {
    steps: Vec<Step>,
}

/// Error returned by the index-bounded mutation operations of `Pointer` when
/// the given position lies outside the token sequence.
#[derive(Debug, Clone, PartialEq, Eq)]
pub struct IndexOutOfBounds {
    pub index: usize,
    pub len: usize,
}

/// The mathematical form of a plain ordered sequence of steps.
pub open spec fn steps_model(v: Seq<Step>) -> Seq<SpecStep> {
    Seq::new(v.len(), |i: int| v[i]@)
}

impl View for Pointer {
    type V = Seq<SpecStep>;

    closed spec fn view(&self) -> Seq<SpecStep> {
        steps_model(self.steps@)
    }
}

impl Pointer {
    /// Appends a step at the end of the token sequence.
    pub fn push(&mut self, step: Step)
        ensures
            final(self)@ == old(self)@.push(step@),
    {
        self.steps.push(step);
        proof {
            assert(final(self)@ =~= old(self)@.push(step@));
        }
    }

    /// Removes and returns the last step, or `None` on an empty sequence.
    pub fn pop(&mut self) -> (r: Option<Step>)
        ensures
            old(self)@.len() == 0 ==> r is None && final(self)@ == old(self)@,
            old(self)@.len() > 0 ==> {
                &&& r matches Some(s) && s@ == old(self)@.last()
                &&& final(self)@ == old(self)@.drop_last()
            },
    {
        let r = self.steps.pop();
        proof {
            if old(self)@.len() > 0 {
                assert(final(self)@ =~= old(self)@.drop_last());
            } else {
                assert(final(self)@ =~= old(self)@);
            }
        }
        r
    }

    /// Inserts a step at the given position, shifting the rest up; positions
    /// past the end are rejected and leave the pointer unchanged.
    pub fn insert(&mut self, index: usize, step: Step) -> (r: Result<(), IndexOutOfBounds>)
        ensures
            index <= old(self)@.len() ==> {
                &&& r is Ok
                &&& final(self)@ == old(self)@.insert(index as int, step@)
            },
            index > old(self)@.len() ==> {
                &&& r matches Err(e) && e.index == index && e.len == old(self)@.len()
                &&& final(self)@ == old(self)@
            },
    {
        if index <= self.steps.len() {
            self.steps.insert(index, step);
            proof {
                assert(final(self)@ =~= old(self)@.insert(index as int, step@));
            }
            Ok(())
        } else {
            Err(IndexOutOfBounds { index, len: self.steps.len() })
        }
    }

    /// Removes and returns the step at the given position, shifting the rest
    /// down; positions at or past the end are rejected and leave the pointer
    /// unchanged.
    pub fn remove(&mut self, index: usize) -> (r: Result<Step, IndexOutOfBounds>)
        ensures
            index < old(self)@.len() ==> {
                &&& r matches Ok(s) && s@ == old(self)@[index as int]
                &&& final(self)@ == old(self)@.remove(index as int)
            },
            index >= old(self)@.len() ==> {
                &&& r matches Err(e) && e.index == index && e.len == old(self)@.len()
                &&& final(self)@ == old(self)@
            },
    {
        if index < self.steps.len() {
            let s = self.steps.remove(index);
            proof {
                assert(final(self)@ =~= old(self)@.remove(index as int));
            }
            Ok(s)
        } else {
            Err(IndexOutOfBounds { index, len: self.steps.len() })
        }
    }

    /// Builds a pointer directly from a plain ordered sequence of steps.
    pub fn from_steps(steps: Vec<Step>) -> (r: Pointer)
        ensures
            r@ == steps_model(steps@),
    {
        Pointer { steps }
    }

    /// Gives back the plain ordered sequence of steps.
    pub fn into_steps(self) -> (r: Vec<Step>)
        ensures
            self@ == steps_model(r@),
    {
        self.steps
    }

    /// The number of steps in the pointer.
    pub fn len(&self) -> (r: usize)
        ensures
            r == self@.len(),
    {
        self.steps.len()
    }

    /// Traverses the provided value and finds the location this pointer
    /// points to in it, if any: an existing node, or the append slot of a
    /// sequence named by a terminal append marker.
    pub fn traverse<'a>(&self, val: &'a Value) -> (r: Option<ValuePointer<'a>>)
        ensures
            match spec_resolve(val@, self@) {
                Some(SpecResolved::Existing(sv)) => r matches Some(ValuePointer::Existing(f))
                    && f@ == sv,
                Some(SpecResolved::NewUnder(pv, idx)) => r matches Some(
                    ValuePointer::NewUnder(p, j),
                ) && p@ == pv && j == idx,
                None => r is None,
            },
    {
        proof {
            assert(steps_model(self.steps@).skip(0) =~= self@);
        }
        crate::traverse::resolve_from(val, &self.steps, 0)
    }

    /// The mutating traversal: resolves this pointer against `val` and
    /// writes `new` at the located place, in one pass that re-enters the
    /// tree by path and so holds no second handle into it. An existing node
    /// is replaced and the value that stood there is handed back; a terminal
    /// append marker appends `new` to the located sequence and names the
    /// index it went in at; where the pointer resolves to nothing, `val` is
    /// left untouched.
    pub fn traverse_mut(&self, val: &mut Value, new: Value) -> (r: Option<ValuePointerMut>)
        ensures
            match spec_resolve(old(val)@, self@) {
                Some(SpecResolved::Existing(sv)) => r matches Some(ValuePointerMut::Existing(prev))
                    && prev@ == sv && final(val)@ == spec_write(old(val)@, self@, new@),
                Some(SpecResolved::NewUnder(pv, idx)) => r matches Some(
                    ValuePointerMut::NewUnder(j),
                ) && j == idx && final(val)@ == spec_write(old(val)@, self@, new@),
                None => r is None && final(val)@ == old(val)@,
            },
    {
        proof {
            assert(steps_model(self.steps@).skip(0) =~= self@);
        }
        crate::traverse::write_from(val, &self.steps, 0, new)
    }

    /// A simple override of `traverse` that directly exposes the found
    /// existing value, if any; the append slot case yields `None`.
    pub fn find<'a>(&self, val: &'a Value) -> (r: Option<&'a Value>)
        ensures
            match spec_resolve(val@, self@) {
                Some(SpecResolved::Existing(sv)) => r matches Some(f) && f@ == sv,
                _ => r is None,
            },
    {
        match self.traverse(val) {
            Some(ValuePointer::Existing(v)) => Some(v),
            _ => None,
        }
    }
}

impl std::str::FromStr for Pointer {
    type Err = crate::parser::ParseError;

    /// Parses pointer text, as `parse` does.
    fn from_str(s: &str) -> Result<Self, Self::Err> {
        crate::parser::parse(s)
    }
}

impl Default for Pointer {
    /// The empty pointer, which names the root value itself.
    fn default() -> (r: Self)
        ensures
            r@ == Seq::<SpecStep>::empty(),
    {
        let r = Pointer { steps: Vec::new() };
        proof {
            assert(r@ =~= Seq::<SpecStep>::empty());
        }
        r
    }
}

} // verus!
