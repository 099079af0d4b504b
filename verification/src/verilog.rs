//! The kinds of signal that Verilog knows, and how a signal of each kind is
//! declared.

use vstd::prelude::*;
use vstd::string::*;
use crate::text::{decimal, decimal_digits};

verus! {

/// The kinds of net: signals that must be driven, and that change when their
/// driver changes.
#[derive(Debug, PartialEq, Eq, PartialOrd, Ord, Hash, Clone, Copy, Structural)]
pub enum VerilogNetKind {
    /// Simple interconnecting wire
    Wire,
    /// Wired outputs OR together
    WOr,
    /// Wired outputs AND together
    WAnd,
    /// Pulls down when tri-stated
    Tri0,
    /// Pulls up when tri-stated
    Tri1,
    /// Constant logic 0
    Supply0,
    /// Constant logic 1
    Supply1,
    /// Stores the last value when tri-stated
    TriReg,
}

impl Default for VerilogNetKind {
    fn default() -> (kind: VerilogNetKind)
        ensures
            kind == VerilogNetKind::Wire,
    {
        VerilogNetKind::Wire
    }
}

impl VerilogNetKind {
    /// The word that declares a net of this kind.
    pub open spec fn keyword(self) -> Seq<char> {
        match self {
            VerilogNetKind::Wire => "wire"@,
            VerilogNetKind::WOr => "wor"@,
            VerilogNetKind::WAnd => "wand"@,
            VerilogNetKind::Tri0 => "tri0"@,
            VerilogNetKind::Tri1 => "tri1"@,
            VerilogNetKind::Supply0 => "supply0"@,
            VerilogNetKind::Supply1 => "supply1"@,
            VerilogNetKind::TriReg => "trireg"@,
        }
    }
}

/// The kinds of variable: signals that change when they are assigned and hold
/// their value until the next assignment.
#[derive(Debug, PartialEq, Eq, PartialOrd, Ord, Hash, Clone, Copy, Structural)]
pub enum VerilogVariableKind {
    /// Signed 32-bit variable
    Integer,
    /// Double-precision floating point
    Real,
    /// Any bit size or signedness
    Reg { signed: bool, size: usize },
    /// Unsigned 64-bit variable
    Time,
}

impl Default for VerilogVariableKind {
    fn default() -> (kind: VerilogVariableKind)
        ensures
            kind == (VerilogVariableKind::Reg { signed: false, size: 1 }),
    {
        VerilogVariableKind::Reg { signed: false, size: 1 }
    }
}

/// The kind of a signal.
#[derive(Debug, PartialEq, Eq, PartialOrd, Ord, Hash, Clone, Copy, Structural)]
pub enum VerilogKind {
    Net { kind: VerilogNetKind, size: usize, signed: bool },
    Variable(VerilogVariableKind),
}

impl Default for VerilogKind {
    fn default() -> (kind: VerilogKind)
        ensures
            kind == (VerilogKind::Net { kind: VerilogNetKind::Wire, size: 1, signed: false }),
    {
        VerilogKind::Net { kind: VerilogNetKind::default(), size: 1, signed: false }
    }
}

/// The range of a signal of `size` bits, from the highest bit down to bit 0.
/// A signal of one bit has no range.
pub open spec fn bit_range(size: usize) -> Seq<char> {
    if size == 1 {
        Seq::empty()
    } else {
        "["@ + decimal_digits((size - 1) as nat) + ":"@ + "0"@ + "]"@
    }
}

/// The range of a signal of `size` bits, from the highest bit down to bit 0.
fn bit_range_text(size: usize) -> (text: String)
    requires
        size != 0,
    ensures
        text@ == bit_range(size),
{
    if size == 1 {
        String::new()
    } else {
        let mut text = String::from_str("[");
        let high = decimal((size - 1) as u64);
        text.append(high.as_str());
        text.append(":");
        text.append("0");
        text.append("]");
        text
    }
}

impl VerilogKind {
    /// Whether a signal of this kind can be declared: it has at least one bit,
    /// and it is not a `time` variable, for which no declaration is defined.
    pub open spec fn declarable(self) -> bool {
        match self {
            VerilogKind::Net { size, .. } => size != 0,
            VerilogKind::Variable(VerilogVariableKind::Reg { size, .. }) => size != 0,
            VerilogKind::Variable(VerilogVariableKind::Time) => false,
            VerilogKind::Variable(_) => true,
        }
    }

    /// The text that declares a signal of this kind, up to the signal's name.
    ///
    /// A net is its keyword and its range. A signed net has ` signed `
    /// between the two; with one bit, and so no range, the text ends there.
    /// A register is `reg` and its range, a signed one `reg signed ` and its
    /// range.
    pub open spec fn declaration(self) -> Seq<char> {
        match self {
            VerilogKind::Net { kind, size, signed } => kind.keyword() + if size == 1 {
                if signed {
                    " signed "@
                } else {
                    Seq::empty()
                }
            } else {
                if signed {
                    " signed "@ + bit_range(size)
                } else {
                    bit_range(size)
                }
            },
            VerilogKind::Variable(VerilogVariableKind::Integer) => "integer"@,
            VerilogKind::Variable(VerilogVariableKind::Real) => "real"@,
            VerilogKind::Variable(VerilogVariableKind::Reg { signed, size }) => if signed {
                "reg signed "@ + bit_range(size)
            } else {
                "reg"@ + bit_range(size)
            },
            VerilogKind::Variable(VerilogVariableKind::Time) => Seq::empty(),
        }
    }

    /// The text that declares a signal of this kind, up to the signal's name.
    pub fn to_string(&self) -> (text: String)
        requires
            self.declarable(),
        ensures
            text@ == self.declaration(),
    {
        match self {
            VerilogKind::Net { kind, size, signed } => {
                let mut text = match kind {
                    VerilogNetKind::Wire => String::from_str("wire"),
                    VerilogNetKind::WOr => String::from_str("wor"),
                    VerilogNetKind::WAnd => String::from_str("wand"),
                    VerilogNetKind::Tri0 => String::from_str("tri0"),
                    VerilogNetKind::Tri1 => String::from_str("tri1"),
                    VerilogNetKind::Supply0 => String::from_str("supply0"),
                    VerilogNetKind::Supply1 => String::from_str("supply1"),
                    VerilogNetKind::TriReg => String::from_str("trireg"),
                };
                if *signed {
                    text.append(" signed ");
                }
                let range = bit_range_text(*size);
                text.append(range.as_str());
                assert(text@ =~= self.declaration());
                text
            },
            VerilogKind::Variable(kind) => match kind {
                VerilogVariableKind::Integer => String::from_str("integer"),
                VerilogVariableKind::Real => String::from_str("real"),
                VerilogVariableKind::Reg { signed, size } => {
                    let mut text = if *signed {
                        String::from_str("reg signed ")
                    } else {
                        String::from_str("reg")
                    };
                    let range = bit_range_text(*size);
                    text.append(range.as_str());
                    text
                },
                VerilogVariableKind::Time => String::new(),
            },
        }
    }
}

/// The operations that Verilog builds into the language.
#[derive(Debug, PartialEq, Eq, PartialOrd, Ord, Hash)]
pub enum VerilogPrimitive {
    // Arithmetic
    Add,
    Subtract,
    Multiply,
    Divide,
    Modulus,
    Power,
    // Bitwise
    Not,
    Or,
    And,
    Xor,
    Nand,
    // Relational
    GreaterThan,
    LessThan,
    GreaterThanOrEqual,
    LessThanOrEqual,
    Equal,
    NotEqual,
    // Logical
    Negation,
    LogicalOr,
    LogicalAnd,
    // Shift
    LogicalRightShift,
    ArithmeticRightShift,
    LeftShift,
    // Concatenation
    Concatenation,
    Replication,
    // Conditional
    Conditional,
    // Sign formatting
    ToUnsigned,
    ToSigned,
}

} // verus!
