//! Why a connection between two pins is refused.

use vstd::prelude::*;
use vstd::string::*;
use crate::handle::PinIndex;
use crate::kinds::PinKind;

verus! {

/// The reasons for which a wire between two pins is refused.
#[derive(Debug, Clone, Copy, PartialEq, Eq, Structural)]
pub enum ConnectionError {
    /// The handle does not resolve to a pin.
    BadIndex(PinIndex),
    /// Both ends are the same pin.
    IdenticalPins,
    /// The two pins carry different kinds of signal.
    Compatibility(PinKind, PinKind),
    /// The two pins are not one input and one output.
    Direction,
    /// The input already has a driver.
    InputDriven,
}

impl ConnectionError {
    /// What the error says to the user.
    pub open spec fn message(self) -> Seq<char> {
        match self {
            ConnectionError::BadIndex(pin) => "The supplied pin index `"@ + pin.0.text()
                + "` points to a pin that doesn't exist"@,
            ConnectionError::IdenticalPins => "Pins a and b are identical"@,
            ConnectionError::Compatibility(a, b) =>
                "The pins on either side of the connection are incompatible: "@ + a.text()
                    + " and "@ + b.text(),
            ConnectionError::Direction => "A wire must connect an input to an output"@,
            ConnectionError::InputDriven =>
                "The input is already driven. Remove the existing connection first."@,
        }
    }

    /// What the error says to the user.
    pub fn to_string(&self) -> (text: String)
        ensures
            text@ == self.message(),
    {
        match self {
            ConnectionError::BadIndex(pin) => {
                let mut text = String::from_str("The supplied pin index `");
                let shown = pin.to_string();
                text.append(shown.as_str());
                text.append("` points to a pin that doesn't exist");
                text
            },
            ConnectionError::IdenticalPins => String::from_str("Pins a and b are identical"),
            ConnectionError::Compatibility(a, b) => {
                let mut text = String::from_str(
                    "The pins on either side of the connection are incompatible: ",
                );
                let first = a.to_string();
                text.append(first.as_str());
                text.append(" and ");
                let second = b.to_string();
                text.append(second.as_str());
                text
            },
            ConnectionError::Direction => String::from_str(
                "A wire must connect an input to an output",
            ),
            ConnectionError::InputDriven => String::from_str(
                "The input is already driven. Remove the existing connection first.",
            ),
        }
    }
}

} // verus!
