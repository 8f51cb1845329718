//! Expands JSON templates into documents: variable references are resolved
//! against an environment of named templates, and generator directives draw
//! from a seeded random source.
use vstd::prelude::*;

pub mod value;
pub mod text;
pub mod random;
pub mod generators;
pub mod engine;

pub use engine::{EvalError, Generator, GeneratorKind};
pub use generators::{
    ArrayGenerator, IntegerGenerator, ObjectGenerator, ObjectMember, OneofGenerator,
    OptionGenerator, PayloadError, StringGenerator,
};
pub use value::{Json, Number};

verus! {

} // verus!
