//! The kinds of data that SystemVerilog knows, and their split into kinds
//! with a size and kinds without, as a caller without sum types passes them.

use vstd::prelude::*;

verus! {

/// The kind of a datum.
#[derive(Debug, PartialEq, Eq, PartialOrd, Ord, Hash, Clone, Copy, Structural)]
pub enum VerilogKind {
    Bit(usize),
    Byte,
    ShortInteger,
    Integer,
    LongInteger,
    Logic(usize),
    Time,
    ShortReal,
    Real,
}

impl VerilogKind {
    /// Whether the kind comes with a number of bits.
    pub open spec fn is_sized(self) -> bool {
        self is Bit || self is Logic
    }
}

/// The kinds that come without a size.
#[derive(Debug, PartialEq, Eq, Clone, Copy, Structural)]
pub enum UnsizedVerilogKind {
    Byte,
    ShortInteger,
    Integer,
    LongInteger,
    Time,
    ShortReal,
    Real,
}

impl UnsizedVerilogKind {
    /// The kind as a kind of datum.
    pub open spec fn kind(self) -> VerilogKind {
        match self {
            UnsizedVerilogKind::Byte => VerilogKind::Byte,
            UnsizedVerilogKind::ShortInteger => VerilogKind::ShortInteger,
            UnsizedVerilogKind::Integer => VerilogKind::Integer,
            UnsizedVerilogKind::LongInteger => VerilogKind::LongInteger,
            UnsizedVerilogKind::Time => VerilogKind::Time,
            UnsizedVerilogKind::ShortReal => VerilogKind::ShortReal,
            UnsizedVerilogKind::Real => VerilogKind::Real,
        }
    }

    /// The kind as a kind of datum.
    pub fn to_verilog_kind(&self) -> (kind: VerilogKind)
        ensures
            kind == self.kind(),
            !kind.is_sized(),
    {
        match self {
            UnsizedVerilogKind::Byte => VerilogKind::Byte,
            UnsizedVerilogKind::ShortInteger => VerilogKind::ShortInteger,
            UnsizedVerilogKind::Integer => VerilogKind::Integer,
            UnsizedVerilogKind::LongInteger => VerilogKind::LongInteger,
            UnsizedVerilogKind::Time => VerilogKind::Time,
            UnsizedVerilogKind::ShortReal => VerilogKind::ShortReal,
            UnsizedVerilogKind::Real => VerilogKind::Real,
        }
    }

    /// The kind without a size that `vk` is.
    pub fn from_verilog_kind(vk: VerilogKind) -> (kind: UnsizedVerilogKind)
        requires
            !vk.is_sized(),
        ensures
            kind.kind() == vk,
    {
        match vk {
            VerilogKind::Byte => UnsizedVerilogKind::Byte,
            VerilogKind::ShortInteger => UnsizedVerilogKind::ShortInteger,
            VerilogKind::Integer => UnsizedVerilogKind::Integer,
            VerilogKind::LongInteger => UnsizedVerilogKind::LongInteger,
            VerilogKind::Time => UnsizedVerilogKind::Time,
            VerilogKind::ShortReal => UnsizedVerilogKind::ShortReal,
            _ => UnsizedVerilogKind::Real,
        }
    }
}

/// The kinds that come with a size.
#[derive(Debug, PartialEq, Eq, Clone, Copy, Structural)]
pub enum SizedVerilogKind {
    Bit,
    Logic,
}

impl SizedVerilogKind {
    /// The kind, with `size` bits, as a kind of datum.
    pub open spec fn kind(self, size: usize) -> VerilogKind {
        match self {
            SizedVerilogKind::Bit => VerilogKind::Bit(size),
            SizedVerilogKind::Logic => VerilogKind::Logic(size),
        }
    }

    /// The kind, with `size` bits, as a kind of datum.
    pub fn to_verilog_kind(&self, size: usize) -> (kind: VerilogKind)
        ensures
            kind == self.kind(size),
            kind.is_sized(),
    {
        match self {
            SizedVerilogKind::Bit => VerilogKind::Bit(size),
            SizedVerilogKind::Logic => VerilogKind::Logic(size),
        }
    }

    /// The kind with a size that `vk` is, without the size.
    pub fn from_verilog_kind(vk: VerilogKind) -> (kind: SizedVerilogKind)
        requires
            vk.is_sized(),
        ensures
            (match vk {
                VerilogKind::Bit(size) => kind.kind(size) == vk,
                VerilogKind::Logic(size) => kind.kind(size) == vk,
                _ => false,
            }),
    {
        match vk {
            VerilogKind::Bit(_) => SizedVerilogKind::Bit,
            _ => SizedVerilogKind::Logic,
        }
    }
}

/// A kind without a size, taken as a kind of datum and read back, is the
/// same kind; so is a kind with a size, whatever the size.
pub proof fn law_kind_round_trip(plain: UnsizedVerilogKind, sized: SizedVerilogKind, size: usize)
    ensures
        !plain.kind().is_sized(),
        sized.kind(size).is_sized(),
        forall|other: UnsizedVerilogKind| other.kind() == plain.kind() ==> other == plain,
        forall|other: SizedVerilogKind| other.kind(size) == sized.kind(size) ==> other == sized,
{
}

} // verus!
