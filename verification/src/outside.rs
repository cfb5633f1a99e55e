//! The types of other crates that values of this library hold or hand on.

use vstd::prelude::*;

verus! {

/// `regex::Regex`: a compiled regular expression. Nothing of its inside is
/// known here.
#[verifier::external_type_specification]
#[verifier::external_body]
pub struct ExRegex(regex::Regex);

/// `ulid::Generator`: a maker of identifiers that remembers the last one it
/// made. Nothing of its inside is known here.
#[verifier::external_type_specification]
#[verifier::external_body]
pub struct ExGenerator(ulid::Generator);

/// `ulid::MonotonicError`: the refusal of a generator to make an identifier.
#[verifier::external_type_specification]
#[verifier::external_body]
pub struct ExMonotonicError(ulid::MonotonicError);

} // verus!
