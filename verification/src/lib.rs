//! RFC 6901 JSON Pointer: parsing of pointer text into reference tokens and
//! traversal of a tree-shaped value to the location a pointer names.

mod parser;
mod pointer;
mod traverse;
mod value;

pub use parser::parse;
pub use parser::ParseError;
pub use pointer::IndexOutOfBounds;
pub use pointer::Pointer;
pub use pointer::SpecStep;
pub use pointer::Step;
pub use traverse::SpecResolved;
pub use traverse::ValuePointer;
pub use traverse::ValuePointerMut;
pub use value::SpecValue;
pub use value::Value;
