//! Settings of the unique-line filter.

use vstd::prelude::*;

verus! {

/// Settings of one unique-line run: the input name, an optional output
/// file, and whether occurrence counts are asked for.  The dedup pass
/// itself is a distinct stateful component and not part of this engine.
#[derive(Debug, Clone, PartialEq)]
pub struct Config {
    pub in_file: String,
    pub out_file: Option<String>,
    pub count: bool,
}

} // verus!
