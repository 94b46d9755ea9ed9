//! An interpreter for a small procedural-generation grammar: rules expand
//! recursively into primitive shapes placed by composed transforms.
//!
//! Source text is split into lexemes (`lexer`), read into a rule table
//! (`parser`, `rules`), and evaluated step by step into a sequence of
//! `(Transform, Primitive)` leaves (`eval`).

pub mod number;
pub mod transform;
pub mod lexer;
pub mod error;
pub mod rules;
pub mod placement;
pub mod random;
pub mod eval;
pub mod parser;

pub use error::{Error, ErrorKind};
pub use eval::{ContextMut, RuleSetIterator, StepOutcome};
pub use lexer::Token;
pub use number::Number;
pub use parser::{Parser, parse};
pub use rules::{Primitive, RuleSet};
pub use transform::{Step, Transform};
