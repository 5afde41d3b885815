//! Parser for cluster genders files: a line-oriented text format that gives
//! each host a set of named attributes, each with an optional typed value.
//!
//! A parse runs in two stages. The grammar engine turns the text into a
//! syntax tree or rejects it with a positioned syntax error; the transformer
//! turns the tree into typed values and folds them into a lookup structure,
//! rejecting duplicate hosts and duplicate attributes.
//!
//! Every name and every string value of the result borrows from the text.

pub mod bytes;
pub mod engine;
pub mod error;
pub mod grammar;
pub mod laws;
pub mod model;
pub mod number;
pub mod parse;
pub mod rule;
pub mod syntax;
pub mod text;
pub mod tree;

pub use crate::engine::parse_tree;
pub use crate::error::{GendersError, SyntaxError};
pub use crate::model::{Attributes, Genders};
pub use crate::rule::Rule;
pub use crate::syntax::{Attribute, AttributeValue, GendersFile, HostEntry};
pub use crate::tree::Node;
