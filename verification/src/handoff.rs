//! Passing a text into a function and getting it back.

use vstd::prelude::*;
use vstd::string::StringSliceAdditionalSpecFns;
use vstd::utf8::encode_utf8;

verus! {

/// Hands `s` back together with its length in bytes.
pub fn calculate_length(s: String) -> (r: (String, usize))
    ensures
        r.0@ == s@,
        r.1 == encode_utf8(s@).len(),
{
    let length: usize = s.as_str().as_bytes().len();
    (s, length)
}

pub fn gives_ownership() -> (s: String)
    ensures
        s@ == "yours"@,
{
    let some_string: String = "yours".to_owned();
    some_string
}

pub fn takes_and_gives_back(a_string: String) -> (s: String)
    ensures
        s@ == a_string@,
{
    a_string
}

} // verus!
