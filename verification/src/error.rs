use vstd::prelude::*;

verus! {

/// Error produced during compilation.
///
/// A single opaque, human-readable message; both the lexer and the parser
/// report failures through this type.
#[derive(Debug, Clone)]
pub struct Error(pub String);

impl From<String> for Error {
    fn from(value: String) -> (r: Self) {
        Error(value)
    }
}

impl vstd::std_specs::convert::FromSpecImpl<String> for Error {
    open spec fn obeys_from_spec() -> bool {
        true
    }

    open spec fn from_spec(value: String) -> Self {
        Error(value)
    }
}

} // verus!
