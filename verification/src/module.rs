//! Modules: named blocks that own an ordered list of input pins and one of
//! output pins.

use vstd::prelude::*;
use crate::handle::PinIndex;
use crate::kinds::InterconnectDirection;
use crate::pinlist::{prune, remove_from};

verus! {

/// A block of the circuit.
///
/// The pin lists keep the order in which the pins were added. The id is drawn
/// from a counter of the netlist and names this module for as long as the
/// netlist lives, also after the module's arena slot is used again.
#[derive(Debug, PartialEq)]
pub struct Module {
    name: String,
    inputs: Vec<PinIndex>,
    outputs: Vec<PinIndex>,
    id: i32,
    position: (u32, u32),
}

/// The mathematical value of a [`Module`].
#[verifier::ext_equal]
pub ghost struct ModuleView {
    pub name: Seq<char>,
    pub inputs: Seq<PinIndex>,
    pub outputs: Seq<PinIndex>,
    pub id: i32,
    pub position: (u32, u32),
}

impl ModuleView {
    /// Whether the module lists `pin` among its inputs or its outputs.
    pub open spec fn owns(self, pin: PinIndex) -> bool {
        self.inputs.contains(pin) || self.outputs.contains(pin)
    }

    /// The pins of the module: the inputs, then the outputs.
    pub open spec fn pins(self) -> Seq<PinIndex> {
        self.inputs + self.outputs
    }

    /// The same module with `pin` appended to the list of its direction.
    pub open spec fn with_pin(self, direction: InterconnectDirection, pin: PinIndex) -> ModuleView {
        match direction {
            InterconnectDirection::Input => ModuleView { inputs: self.inputs.push(pin), ..self },
            InterconnectDirection::Output => ModuleView { outputs: self.outputs.push(pin), ..self },
        }
    }

    /// The same module without the pins in `gone`.
    pub open spec fn without(self, gone: Set<PinIndex>) -> ModuleView {
        ModuleView {
            inputs: prune(self.inputs, gone),
            outputs: prune(self.outputs, gone),
            ..self
        }
    }

    /// The same module at `position`.
    pub open spec fn moved(self, position: (u32, u32)) -> ModuleView {
        ModuleView { position, ..self }
    }
}

impl View for Module {
    type V = ModuleView;

    closed spec fn view(&self) -> ModuleView {
        ModuleView {
            name: self.name@,
            inputs: self.inputs@,
            outputs: self.outputs@,
            id: self.id,
            position: self.position,
        }
    }
}

impl Module {
    /// A module without pins, placed at the origin.
    pub fn new(name: String, id: i32) -> (module: Module)
        ensures
            module@ == (ModuleView {
                name: name@,
                inputs: Seq::empty(),
                outputs: Seq::empty(),
                id,
                position: (0u32, 0u32),
            }),
    {
        Module { name, inputs: Vec::new(), outputs: Vec::new(), id, position: (0, 0) }
    }

    /// The name of the module.
    pub fn name(&self) -> (name: &str)
        ensures
            name@ == self@.name,
    {
        self.name.as_str()
    }

    /// The input pins, in the order in which they were added.
    pub fn inputs(&self) -> (pins: &[PinIndex])
        ensures
            pins@ == self@.inputs,
    {
        self.inputs.as_slice()
    }

    /// The output pins, in the order in which they were added.
    pub fn outputs(&self) -> (pins: &[PinIndex])
        ensures
            pins@ == self@.outputs,
    {
        self.outputs.as_slice()
    }

    /// The id of the module.
    pub fn id(&self) -> (id: i32)
        ensures
            id == self@.id,
    {
        self.id
    }

    /// Where the module is drawn: the bit patterns of two single-precision
    /// coordinates, which the netlist stores and never interprets.
    pub fn position(&self) -> (position: (u32, u32))
        ensures
            position == self@.position,
    {
        self.position
    }

    /// Appends `pin` to the list of its direction.
    pub(crate) fn add_pin(&mut self, direction: InterconnectDirection, pin: PinIndex)
        ensures
            final(self)@ == old(self)@.with_pin(direction, pin),
    {
        match direction {
            InterconnectDirection::Input => self.inputs.push(pin),
            InterconnectDirection::Output => self.outputs.push(pin),
        }
    }

    /// Takes `pin` out of the list of its direction.
    pub(crate) fn remove_pin(&mut self, direction: InterconnectDirection, pin: PinIndex)
        ensures
            final(self)@ == (match direction {
                InterconnectDirection::Input => ModuleView {
                    inputs: prune(old(self)@.inputs, set![pin]),
                    ..old(self)@
                },
                InterconnectDirection::Output => ModuleView {
                    outputs: prune(old(self)@.outputs, set![pin]),
                    ..old(self)@
                },
            }),
    {
        match direction {
            InterconnectDirection::Input => remove_from(&mut self.inputs, pin),
            InterconnectDirection::Output => remove_from(&mut self.outputs, pin),
        }
    }

    /// Puts the module at `position`.
    pub(crate) fn set_position(&mut self, position: (u32, u32))
        ensures
            final(self)@ == old(self)@.moved(position),
    {
        self.position = position;
    }
}

} // verus!
