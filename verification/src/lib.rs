use vstd::prelude::*;

pub mod json_parser;

verus! {
}
