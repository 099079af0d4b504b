//! Pins: the named, typed, directional terminals of a module.

use vstd::prelude::*;
use crate::handle::{ModuleIndex, PinIndex};
use crate::kinds::{InterconnectDirection, PinKind};
use crate::pinlist::{prune, remove_from};

verus! {

/// What a pin is linked to. The variant is the pin's direction.
#[derive(Debug)]
pub enum Interconnect {
    /// An input is driven by at most one output.
    Input { connection: Option<PinIndex> },
    /// An output drives any number of inputs, kept in the order in which they
    /// were connected.
    Output { connections: Vec<PinIndex> },
}

/// The mathematical value of an [`Interconnect`].
#[verifier::ext_equal]
pub ghost enum InterconnectView {
    Input { connection: Option<PinIndex> },
    Output { connections: Seq<PinIndex> },
}

impl InterconnectView {
    /// The link state of a pin of direction `direction` that is linked to nothing.
    pub open spec fn unlinked(direction: InterconnectDirection) -> InterconnectView {
        match direction {
            InterconnectDirection::Input => InterconnectView::Input { connection: None },
            InterconnectDirection::Output => InterconnectView::Output { connections: Seq::empty() },
        }
    }

    pub open spec fn direction(self) -> InterconnectDirection {
        match self {
            InterconnectView::Input { .. } => InterconnectDirection::Input,
            InterconnectView::Output { .. } => InterconnectDirection::Output,
        }
    }

    /// Whether this side of a link names `pin` as its partner.
    pub open spec fn links_to(self, pin: PinIndex) -> bool {
        match self {
            InterconnectView::Input { connection } => connection == Some(pin),
            InterconnectView::Output { connections } => connections.contains(pin),
        }
    }

    /// The link state without any link to a pin in `gone`.
    pub open spec fn without(self, gone: Set<PinIndex>) -> InterconnectView {
        match self {
            InterconnectView::Input { connection } => InterconnectView::Input {
                connection: match connection {
                    Some(driver) if gone.contains(driver) => None,
                    _ => connection,
                },
            },
            InterconnectView::Output { connections } => InterconnectView::Output {
                connections: prune(connections, gone),
            },
        }
    }
}

impl View for Interconnect {
    type V = InterconnectView;

    open spec fn view(&self) -> InterconnectView {
        match self {
            Interconnect::Input { connection } => InterconnectView::Input { connection: *connection },
            Interconnect::Output { connections } => InterconnectView::Output {
                connections: connections@,
            },
        }
    }
}

impl Interconnect {
    pub fn direction(&self) -> (d: InterconnectDirection)
        ensures
            d == self@.direction(),
    {
        match self {
            Interconnect::Input { .. } => InterconnectDirection::Input,
            Interconnect::Output { .. } => InterconnectDirection::Output,
        }
    }

    pub fn is_input(&self) -> (yes: bool)
        ensures
            yes == (self@ is Input),
    {
        self.direction() == InterconnectDirection::Input
    }

    pub fn is_output(&self) -> (yes: bool)
        ensures
            yes == (self@ is Output),
    {
        self.direction() == InterconnectDirection::Output
    }
}

/// A terminal of a module.
///
/// The direction is fixed when the pin is made. The link state changes only
/// through the operations of the netlist that owns the pin.
#[derive(Debug)]
pub struct Pin {
    name: String,
    kind: PinKind,
    interconnect: Interconnect,
    parent: ModuleIndex,
}

/// The mathematical value of a [`Pin`].
#[verifier::ext_equal]
pub ghost struct PinView {
    pub name: Seq<char>,
    pub kind: PinKind,
    pub interconnect: InterconnectView,
    pub parent: ModuleIndex,
}

impl PinView {
    pub open spec fn is_input(self) -> bool {
        self.interconnect is Input
    }

    pub open spec fn is_output(self) -> bool {
        self.interconnect is Output
    }

    /// The output that drives this pin, if it is a driven input.
    pub open spec fn driver(self) -> Option<PinIndex> {
        match self.interconnect {
            InterconnectView::Input { connection } => connection,
            InterconnectView::Output { .. } => None,
        }
    }

    /// The inputs that this pin drives, if it is an output.
    pub open spec fn driven(self) -> Seq<PinIndex> {
        match self.interconnect {
            InterconnectView::Input { .. } => Seq::empty(),
            InterconnectView::Output { connections } => connections,
        }
    }

    /// The same pin with link state `interconnect`.
    pub open spec fn relinked(self, interconnect: InterconnectView) -> PinView {
        PinView { interconnect, ..self }
    }

    /// The same pin without any link to a pin in `gone`.
    pub open spec fn without(self, gone: Set<PinIndex>) -> PinView {
        self.relinked(self.interconnect.without(gone))
    }
}

impl View for Pin {
    type V = PinView;

    closed spec fn view(&self) -> PinView {
        PinView {
            name: self.name@,
            kind: self.kind,
            interconnect: self.interconnect@,
            parent: self.parent,
        }
    }
}

impl Pin {
    /// A pin of the given name, kind and direction on module `parent`, linked
    /// to nothing.
    pub fn new(
        name: String,
        kind: PinKind,
        direction: InterconnectDirection,
        parent: ModuleIndex,
    ) -> (pin: Pin)
        ensures
            pin@ == (PinView {
                name: name@,
                kind,
                interconnect: InterconnectView::unlinked(direction),
                parent,
            }),
    {
        Pin {
            name,
            kind,
            parent,
            interconnect: match direction {
                InterconnectDirection::Input => Interconnect::Input { connection: None },
                InterconnectDirection::Output => Interconnect::Output { connections: Vec::new() },
            },
        }
    }

    pub fn name(&self) -> (name: &str)
        ensures
            name@ == self@.name,
    {
        self.name.as_str()
    }

    pub fn direction(&self) -> (d: InterconnectDirection)
        ensures
            d == self@.interconnect.direction(),
    {
        self.interconnect.direction()
    }

    pub fn is_input(&self) -> (yes: bool)
        ensures
            yes == self@.is_input(),
    {
        self.interconnect.is_input()
    }

    pub fn is_output(&self) -> (yes: bool)
        ensures
            yes == self@.is_output(),
    {
        self.interconnect.is_output()
    }

    pub fn kind(&self) -> (kind: PinKind)
        ensures
            kind == self@.kind,
    {
        self.kind
    }

    /// The module that owns the pin.
    pub fn parent(&self) -> (parent: ModuleIndex)
        ensures
            parent == self@.parent,
    {
        self.parent
    }

    /// What the pin is linked to.
    pub fn interconnect(&self) -> (link: &Interconnect)
        ensures
            link@ == self@.interconnect,
    {
        &self.interconnect
    }

    /// The output that drives the pin, if the pin is a driven input.
    pub fn driver(&self) -> (driver: Option<PinIndex>)
        ensures
            driver == self@.driver(),
    {
        match &self.interconnect {
            Interconnect::Input { connection } => *connection,
            Interconnect::Output { .. } => None,
        }
    }

    /// Sets or clears the driver of an input.
    pub(crate) fn set_driver(&mut self, driver: Option<PinIndex>)
        requires
            old(self)@.is_input(),
        ensures
            final(self)@ == old(self)@.relinked(InterconnectView::Input { connection: driver }),
    {
        self.interconnect = Interconnect::Input { connection: driver };
    }

    /// Appends `input` to the inputs that an output drives.
    pub(crate) fn add_driven(&mut self, input: PinIndex)
        requires
            old(self)@.is_output(),
        ensures
            final(self)@ == old(self)@.relinked(
                InterconnectView::Output { connections: old(self)@.driven().push(input) },
            ),
    {
        match &mut self.interconnect {
            Interconnect::Output { connections } => connections.push(input),
            Interconnect::Input { .. } => {},
        }
    }

    /// Takes `input` out of the inputs that an output drives.
    pub(crate) fn remove_driven(&mut self, input: PinIndex)
        requires
            old(self)@.is_output(),
        ensures
            final(self)@ == old(self)@.without(set![input]),
    {
        match &mut self.interconnect {
            Interconnect::Output { connections } => remove_from(connections, input),
            Interconnect::Input { .. } => {},
        }
    }
}

} // verus!
