//! A small JSON reader: it turns text into objects, arrays and scalars.
//!
//! `model` holds the parsed values and their mathematical views, `grammar` states what the
//! reader makes of a text, `parser` reads it, and `laws` proves properties of the grammar.

pub mod grammar;
pub mod laws;
pub mod model;
pub mod parser;

pub use self::model::{Jmap, Jnumber, Jobject, Jpair, Jval, Jvec, ParseError};
pub use self::parser::{
    is_blank_char, parse, parse_map, parse_number, parse_object, parse_pair, parse_string,
    parse_val, parse_vec,
};
