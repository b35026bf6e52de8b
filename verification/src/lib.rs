//! A parser for the BIF interchange format for discrete Bayesian networks.
//!
//! [`parse_bif`] reads a whole text: one network block, then variable blocks
//! and probability blocks in any order. It hands out a [`Bif`], or the first
//! [`ParseError`] with the byte offset of the text that it is about.
//!
//! The grammar is a set of small rules, each a function from a [`Cursor`]
//! to either the cursor behind what it recognised together with the value
//! it built, or an error. Every rule is proved equal to a mathematical
//! description of the grammar over sequences of characters. What the blocks
//! of a document must say of one another is checked once the grammar is
//! done with the text: [`find_fault`]. The module [`laws`] states what
//! follows for every document that is handed out.
//!
//! Probabilities are kept as the decimal numbers that the text writes.

pub mod error;
pub mod text;
pub mod scan;
pub mod lexical;
pub mod model;
pub mod property;
pub mod list;
pub mod network;
pub mod variable;
pub mod probability;
pub mod document;
pub mod validate;
pub mod table;
pub mod laws;

pub use crate::document::{parse_bif, parse_blocks, parse_syntax};
pub use crate::error::{ErrorKind, ParseError};
pub use crate::lexical::{parse_f64, parse_name, parse_string, parse_u32};
pub use crate::list::{parse_probabilities, parse_states};
pub use crate::model::{Bif, Network, Probability, Property, TableRow, Variable, VariableType};
pub use crate::network::parse_network;
pub use crate::probability::{parse_probability, parse_row, parse_rows, parse_table};
pub use crate::property::{parse_properties, parse_property};
pub use crate::scan::Cursor;
pub use crate::text::CharClass;
pub use crate::validate::{check_names, check_references, find_fault, find_variable};
pub use crate::variable::{parse_node_type, parse_variable};
