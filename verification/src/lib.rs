//! An editable circuit graph: named modules expose typed, directional pins,
//! and wires connect one output pin to one input pin.
//!
//! The graph lives in three generational arenas, so that a handle to a removed
//! entity is reported as gone instead of resolving to whatever took its slot.

pub mod handle;
pub mod kinds;
pub mod pinlist;
pub mod pin;
pub mod module;
pub mod arena;
pub mod error;
pub mod model;
pub mod invariants;
pub mod netlist;
pub mod laws;
pub mod library;
pub mod graph;
pub mod idmap;
pub mod editor;
pub mod pairing;
pub mod text;
pub mod verilog;
pub mod systemverilog;

pub use crate::editor::{
    add_module, add_module_from_library, add_pin, add_wire, get_graph, numbers_fit, remove_module,
    remove_pin, remove_wire, set_module_position, Editor, WireRequestError,
};
pub use crate::graph::{CGraph, CModule, CPort, CWire};
pub use crate::kinds::{InterconnectDirection, PinKind};
