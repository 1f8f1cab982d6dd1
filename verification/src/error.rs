use vstd::prelude::*;

verus! {

/// Why an operation on a net or on a path network failed.
#[derive(Clone, Copy, Debug, PartialEq, Eq, Structural)]
pub enum Error {
    /// A tree is neither an eraser, a constructor nor a variable.
    UnsupportedTreeShape,
    /// A variable name occurs a third time.
    VariableOveruse,
    /// A node id, a free-port index or a label lies beyond its bound.
    IndexOutOfRange,
    /// An auxiliary slot of an eraser was asked for; an eraser has none.
    AuxOnNullaryNode,
    /// A wire end resolved to a principal port where an auxiliary port must stand.
    InvariantViolation,
}

impl Error {
    /// The error in words.
    pub fn message(&self) -> (text: String)
        ensures
            text@ == match *self {
                Error::UnsupportedTreeShape => "unsupported tree shape"@,
                Error::VariableOveruse => "variable used more than twice"@,
                Error::IndexOutOfRange => "index out of range"@,
                Error::AuxOnNullaryNode => "an eraser has no auxiliary ports"@,
                Error::InvariantViolation => "a wire ends at a principal port"@,
            },
    {
        match self {
            Error::UnsupportedTreeShape => "unsupported tree shape".to_owned(),
            Error::VariableOveruse => "variable used more than twice".to_owned(),
            Error::IndexOutOfRange => "index out of range".to_owned(),
            Error::AuxOnNullaryNode => "an eraser has no auxiliary ports".to_owned(),
            Error::InvariantViolation => "a wire ends at a principal port".to_owned(),
        }
    }
}

} // verus!
