//! Handling of write results.
use vstd::prelude::*;

verus! {

#[verifier::external_type_specification]
#[verifier::external_body]
pub struct ExIoError(std::io::Error);

/// Accepts the result of a write. A failed write is fatal to a conversion,
/// so callers check for it before handing the result over.
pub fn validate(r: std::io::Result<usize>)
    requires
        r is Ok,
{
    let _ = r;
}

} // verus!
