//! The direction and the signal kind of a pin.

use vstd::prelude::*;
use vstd::string::*;

verus! {

/// Whether a pin takes a signal in or gives one out.
#[derive(Debug, Copy, Clone, PartialEq, Eq, Structural)]
pub enum InterconnectDirection {
    Input,
    Output,
}

/// The kind of signal that a pin carries.
#[derive(Debug, Copy, Clone, PartialEq, Eq, Structural)]
pub enum PinKind {
    Wire,
    Integer,
    Real,
}

impl PinKind {
    /// Whether a pin of this kind may be wired to a pin of kind `other`.
    ///
    /// Two kinds are compatible exactly when they are the same kind: nothing is
    /// widened, narrowed or cast.
    pub fn compatible(&self, other: PinKind) -> (ok: bool)
        ensures
            ok == (*self == other),
    {
        *self == other
    }

    /// The kind as it is shown.
    pub open spec fn text(self) -> Seq<char> {
        match self {
            PinKind::Wire => "wire"@,
            PinKind::Integer => "integer"@,
            PinKind::Real => "real"@,
        }
    }

    /// The kind as it is shown: `wire`, `integer` or `real`.
    pub fn to_string(&self) -> (text: String)
        ensures
            text@ == self.text(),
    {
        match self {
            PinKind::Wire => String::from_str("wire"),
            PinKind::Integer => String::from_str("integer"),
            PinKind::Real => String::from_str("real"),
        }
    }
}

} // verus!
