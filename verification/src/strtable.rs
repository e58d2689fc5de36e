//! The built-in string table that `TY_STR_TABLE` indexes.

use vstd::prelude::*;

verus! {

/// The entries of the table that this library knows.
pub open spec fn spec_lookup(idx: u8) -> Option<Seq<char>> {
    if idx == 1 {
        Some("*corpid"@)
    } else {
        None
    }
}

/// The string at an index of the table, if there is one.
pub fn lookup(idx: u8) -> (r: Option<&'static str>)
    ensures
        match spec_lookup(idx) {
            Some(s) => r matches Some(t) && t@ == s,
            None => r is None,
        },
{
    if idx == 1 {
        Some("*corpid")
    } else {
        None
    }
}

} // verus!
