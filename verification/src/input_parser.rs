//! The check of a field, with its outcome as a flag.

use vstd::prelude::*;
use crate::error::{malformed_text, ParseError};
use crate::input_validator::{accepted, is_accepted};

verus! {

/// Checks a field while it is being typed. Returns the message to show,
/// empty if there is nothing to object to, and whether the field passed.
pub fn validate(val: &str, no_validation: bool) -> (r: (String, bool))
    ensures
        r.1 == accepted(val@, no_validation),
        r.0@ == if r.1 {
            Seq::<char>::empty()
        } else {
            malformed_text()
        },
{
    if is_accepted(val, no_validation) {
        (String::new(), true)
    } else {
        (ParseError::MalformedTerm.message(), false)
    }
}

} // verus!
