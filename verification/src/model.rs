//! The mathematical model of a netlist: what it holds, when that is
//! consistent, and what each operation makes of it.

use vstd::prelude::*;
use crate::error::ConnectionError;
use crate::handle::{slot_order, Handle, ModuleIndex, PinIndex, WireIndex};
use crate::kinds::{InterconnectDirection, PinKind};
use crate::module::ModuleView;
use crate::pin::{InterconnectView, PinView};

verus! {

/// The mathematical value of a netlist.
#[verifier::ext_equal]
pub ghost struct NetlistView {
    /// The live modules.
    pub modules: Map<ModuleIndex, ModuleView>,
    /// The live pins.
    pub pins: Map<PinIndex, PinView>,
    /// The live wires: the input pin, then the output pin.
    pub wires: Map<WireIndex, (PinIndex, PinIndex)>,
    /// The id that the next module gets, which is the number of modules that
    /// were ever added.
    pub next_module_id: i32,
    /// The number of pins that were ever added.
    pub pins_made: u64,
    /// The number of wires that were ever added.
    pub wires_made: u64,
}

impl NetlistView {
    /// The netlist that holds nothing.
    pub open spec fn empty() -> NetlistView {
        NetlistView {
            modules: Map::empty(),
            pins: Map::empty(),
            wires: Map::empty(),
            next_module_id: 0,
            pins_made: 0,
            wires_made: 0,
        }
    }

    /// The number of modules that were removed: the generation of the next
    /// module handle.
    pub open spec fn module_epoch(self) -> int {
        self.next_module_id - self.modules.len()
    }

    /// The number of pins that were removed: the generation of the next pin
    /// handle.
    pub open spec fn pin_epoch(self) -> int {
        self.pins_made - self.pins.len()
    }

    /// The number of wires that were removed: the generation of the next wire
    /// handle.
    pub open spec fn wire_epoch(self) -> int {
        self.wires_made - self.wires.len()
    }

    /// Whether `module` is a handle that does not resolve and is of a
    /// generation before that of the next handle, so that it never will.
    pub open spec fn retired_module(self, module: ModuleIndex) -> bool {
        !self.modules.contains_key(module) && module.0.generation < self.module_epoch()
    }

    /// Whether `pin` is a handle that does not resolve and is of a generation
    /// before that of the next handle, so that it never will.
    pub open spec fn retired_pin(self, pin: PinIndex) -> bool {
        !self.pins.contains_key(pin) && pin.0.generation < self.pin_epoch()
    }

    /// Whether `wire` is a handle that does not resolve and is of a generation
    /// before that of the next handle, so that it never will.
    pub open spec fn retired_wire(self, wire: WireIndex) -> bool {
        !self.wires.contains_key(wire) && wire.0.generation < self.wire_epoch()
    }

    /// The handles of the live modules.
    pub open spec fn module_handles(self) -> Set<Handle> {
        Set::new(|h: Handle| self.modules.contains_key(ModuleIndex(h)))
    }

    /// The handles of the live pins.
    pub open spec fn pin_handles(self) -> Set<Handle> {
        Set::new(|h: Handle| self.pins.contains_key(PinIndex(h)))
    }

    /// The handles of the live wires.
    pub open spec fn wire_handles(self) -> Set<Handle> {
        Set::new(|h: Handle| self.wires.contains_key(WireIndex(h)))
    }

    /// The live modules in the order in which the netlist enumerates them: by
    /// ascending slot.
    pub open spec fn module_order(self) -> Seq<Handle> {
        slot_order(self.module_handles())
    }

    /// The pins that the modules `modules` list, module after module, each
    /// module's inputs before its outputs.
    pub open spec fn listed_pins(self, modules: Seq<Handle>) -> Seq<PinIndex>
        decreases modules.len(),
    {
        if modules.len() == 0 {
            Seq::empty()
        } else {
            self.listed_pins(modules.drop_last()) + self.modules[ModuleIndex(
                modules.last(),
            )].pins()
        }
    }

    /// The live pins in the order in which the netlist enumerates them: by
    /// ascending slot.
    pub open spec fn pin_order(self) -> Seq<Handle> {
        slot_order(self.pin_handles())
    }

    /// The live wires in the order in which the netlist enumerates them: by
    /// ascending slot.
    pub open spec fn wire_order(self) -> Seq<Handle> {
        slot_order(self.wire_handles())
    }

    // -----------------------------------------------------------------------
    // Consistency
    // -----------------------------------------------------------------------

    /// Whether `pin` is a live pin of direction `direction` whose parent is
    /// `module`.
    pub open spec fn owned_as(
        self,
        module: ModuleIndex,
        pin: PinIndex,
        direction: InterconnectDirection,
    ) -> bool {
        &&& self.pins.contains_key(pin)
        &&& self.pins[pin].parent == module
        &&& self.pins[pin].interconnect.direction() == direction
    }

    /// Whether `input` is a live input whose driver is `output`.
    pub open spec fn driven_by(self, input: PinIndex, output: PinIndex) -> bool {
        &&& self.pins.contains_key(input)
        &&& self.pins[input].interconnect == (InterconnectView::Input { connection: Some(output) })
    }

    /// Whether `output` is a live output of the kind of `input` that lists
    /// `input` among the inputs it drives.
    pub open spec fn drives(self, output: PinIndex, input: PinIndex) -> bool {
        &&& self.pins.contains_key(output)
        &&& self.pins[output].is_output()
        &&& self.pins[output].driven().contains(input)
        &&& self.pins[output].kind == self.pins[input].kind
    }

    /// No two live pins share a slot.
    pub open spec fn pin_slots_distinct(self) -> bool {
        forall|a: PinIndex, b: PinIndex|
            #![trigger self.pins.contains_key(a), self.pins.contains_key(b)]
            self.pins.contains_key(a) && self.pins.contains_key(b) && a.0.slot == b.0.slot ==> a
                == b
    }

    /// Every live module has an id of its own, below the next id.
    pub open spec fn ids_distinct(self) -> bool {
        &&& 0 <= self.next_module_id
        &&& forall|m: ModuleIndex| #[trigger]
            self.modules.contains_key(m) ==> 0 <= self.modules[m].id < self.next_module_id
        &&& forall|m: ModuleIndex, n: ModuleIndex|
            #![trigger self.modules.contains_key(m), self.modules.contains_key(n)]
            self.modules.contains_key(m) && self.modules.contains_key(n) && self.modules[m].id
                == self.modules[n].id ==> m == n
    }

    /// Whether module `m` lists live pins of its own, inputs as inputs and
    /// outputs as outputs, each once.
    pub open spec fn owns_lists(self, m: ModuleIndex) -> bool {
        &&& self.modules[m].inputs.no_duplicates()
        &&& self.modules[m].outputs.no_duplicates()
        &&& forall|i: int|
            0 <= i < self.modules[m].inputs.len() ==> self.owned_as(
                m,
                #[trigger] self.modules[m].inputs[i],
                InterconnectDirection::Input,
            )
        &&& forall|i: int|
            0 <= i < self.modules[m].outputs.len() ==> self.owned_as(
                m,
                #[trigger] self.modules[m].outputs[i],
                InterconnectDirection::Output,
            )
    }

    /// Every module lists live pins of its own, inputs as inputs and outputs
    /// as outputs, each once.
    pub open spec fn lists_owned(self) -> bool {
        forall|m: ModuleIndex| #[trigger] self.modules.contains_key(m) ==> self.owns_lists(m)
    }

    /// Whether the parent of `pin` is live and lists `pin` under its direction.
    pub open spec fn listed(self, pin: PinIndex) -> bool {
        &&& self.modules.contains_key(self.pins[pin].parent)
        &&& self.pins[pin].is_input() ==> self.modules[self.pins[pin].parent].inputs.contains(pin)
        &&& self.pins[pin].is_output() ==> self.modules[self.pins[pin].parent].outputs.contains(
            pin,
        )
    }

    /// Every live pin is listed by its parent.
    pub open spec fn pins_listed(self) -> bool {
        forall|p: PinIndex| #[trigger] self.pins.contains_key(p) ==> self.listed(p)
    }

    /// Whether the links of `pin` are mirrored on the other side.
    pub open spec fn mirrored(self, pin: PinIndex) -> bool {
        match self.pins[pin].interconnect {
            InterconnectView::Input { connection: Some(output) } => self.drives(output, pin),
            InterconnectView::Input { connection: None } => true,
            InterconnectView::Output { connections } => {
                &&& connections.no_duplicates()
                &&& forall|j: int|
                    0 <= j < connections.len() ==> self.driven_by(#[trigger] connections[j], pin)
            },
        }
    }

    /// Every link is held by both of its ends.
    pub open spec fn links_mirrored(self) -> bool {
        forall|p: PinIndex| #[trigger] self.pins.contains_key(p) ==> self.mirrored(p)
    }

    /// Whether `wire` is a live wire whose input is `input`.
    pub open spec fn records(self, wire: WireIndex, input: PinIndex) -> bool {
        self.wires.contains_key(wire) && self.wires[wire].0 == input
    }

    /// Whether some wire records the link of the driven input `input`.
    pub open spec fn recorded(self, input: PinIndex) -> bool {
        exists|wire: WireIndex| #[trigger] self.records(wire, input)
    }

    /// Every link is recorded by a wire.
    pub open spec fn links_recorded(self) -> bool {
        forall|p: PinIndex| #[trigger]
            self.pins.contains_key(p) ==> (self.pins[p].driver().is_some() ==> self.recorded(p))
    }

    /// Every wire records a link, and no input has two wires.
    pub open spec fn wires_linked(self) -> bool {
        &&& forall|w: WireIndex| #[trigger]
            self.wires.contains_key(w) ==> self.driven_by(self.wires[w].0, self.wires[w].1)
        &&& forall|w: WireIndex, x: WireIndex|
            #![trigger self.wires.contains_key(w), self.wires.contains_key(x)]
            self.wires.contains_key(w) && self.wires.contains_key(x) && self.wires[w].0
                == self.wires[x].0 ==> w == x
    }

    /// There are finitely many modules, pins and wires, and no live handle is
    /// of a later generation than the next handle will be.
    pub open spec fn generations_bounded(self) -> bool {
        &&& self.modules.dom().finite()
        &&& self.pins.dom().finite()
        &&& self.wires.dom().finite()
        &&& 0 <= self.module_epoch()
        &&& 0 <= self.pin_epoch()
        &&& 0 <= self.wire_epoch()
        &&& forall|m: ModuleIndex| #[trigger]
            self.modules.contains_key(m) ==> m.0.generation <= self.module_epoch()
        &&& forall|p: PinIndex| #[trigger]
            self.pins.contains_key(p) ==> p.0.generation <= self.pin_epoch()
        &&& forall|w: WireIndex| #[trigger]
            self.wires.contains_key(w) ==> w.0.generation <= self.wire_epoch()
    }

    /// What holds of a netlist also while a module is being taken apart.
    pub open spec fn core_wf(self) -> bool {
        &&& self.generations_bounded()
        &&& self.pin_slots_distinct()
        &&& self.ids_distinct()
        &&& self.lists_owned()
        &&& self.links_mirrored()
        &&& self.wires_linked()
        &&& self.links_recorded()
    }

    /// What holds of a netlist between any two operations.
    pub open spec fn wf(self) -> bool {
        &&& self.core_wf()
        &&& self.pins_listed()
    }

    // -----------------------------------------------------------------------
    // Operations
    // -----------------------------------------------------------------------

    /// The netlist with a new module `module` of the given name.
    pub open spec fn with_module(self, module: ModuleIndex, name: Seq<char>) -> NetlistView {
        NetlistView {
            modules: self.modules.insert(
                module,
                ModuleView {
                    name,
                    inputs: Seq::empty(),
                    outputs: Seq::empty(),
                    id: self.next_module_id,
                    position: (0u32, 0u32),
                },
            ),
            next_module_id: (self.next_module_id + 1) as i32,
            ..self
        }
    }

    /// The netlist with module `module` at `position`.
    pub open spec fn moved(self, module: ModuleIndex, position: (u32, u32)) -> NetlistView {
        NetlistView {
            modules: self.modules.insert(module, self.modules[module].moved(position)),
            ..self
        }
    }

    /// Whether no live pin has the slot of `pin`.
    pub open spec fn pin_slot_free(self, pin: PinIndex) -> bool {
        forall|q: PinIndex| #[trigger] self.pins.contains_key(q) ==> q.0.slot != pin.0.slot
    }

    /// The netlist with a new, unlinked pin `pin` on module `module`.
    pub open spec fn with_pin(
        self,
        pin: PinIndex,
        module: ModuleIndex,
        name: Seq<char>,
        kind: PinKind,
        direction: InterconnectDirection,
    ) -> NetlistView {
        NetlistView {
            modules: self.modules.insert(module, self.modules[module].with_pin(direction, pin)),
            pins: self.pins.insert(
                pin,
                PinView {
                    name,
                    kind,
                    interconnect: InterconnectView::unlinked(direction),
                    parent: module,
                },
            ),
            pins_made: (self.pins_made + 1) as u64,
            ..self
        }
    }

    /// Which of two handles, not both live, a refused connection names: `a`
    /// where `a` does not resolve, and also where both name one slot and `a`
    /// is of the earlier generation; `b` otherwise.
    pub open spec fn unresolved(self, a: PinIndex, b: PinIndex) -> PinIndex {
        if !self.pins.contains_key(a) || (a.0.slot == b.0.slot && a.0.generation
            < b.0.generation) {
            a
        } else {
            b
        }
    }

    /// Why a wire between `a` and `b` is refused, if it is. The first test
    /// that fails decides.
    pub open spec fn wire_error(self, a: PinIndex, b: PinIndex) -> Option<ConnectionError> {
        if a == b {
            Some(ConnectionError::IdenticalPins)
        } else if !self.pins.contains_key(a) || !self.pins.contains_key(b) {
            Some(ConnectionError::BadIndex(self.unresolved(a, b)))
        } else if self.pins[a].kind != self.pins[b].kind {
            Some(ConnectionError::Compatibility(self.pins[a].kind, self.pins[b].kind))
        } else if self.pins[a].is_input() == self.pins[b].is_input() {
            Some(ConnectionError::Direction)
        } else if self.pins[self.wire_ends(a, b).0].driver().is_some() {
            Some(ConnectionError::InputDriven)
        } else {
            None
        }
    }

    /// The two ends of a wire between `a` and `b`: the input, then the output.
    pub open spec fn wire_ends(self, a: PinIndex, b: PinIndex) -> (PinIndex, PinIndex) {
        if self.pins[a].is_input() {
            (a, b)
        } else {
            (b, a)
        }
    }

    /// The netlist with a new wire `wire` from `output` to `input`.
    pub open spec fn connected(self, wire: WireIndex, input: PinIndex, output: PinIndex) -> NetlistView {
        NetlistView {
            pins: self.pins.insert(
                input,
                self.pins[input].relinked(InterconnectView::Input { connection: Some(output) }),
            ).insert(
                output,
                self.pins[output].relinked(
                    InterconnectView::Output { connections: self.pins[output].driven().push(input) },
                ),
            ),
            wires: self.wires.insert(wire, (input, output)),
            wires_made: (self.wires_made + 1) as u64,
            ..self
        }
    }

    /// The netlist without wire `wire` and without the link that it records.
    pub open spec fn disconnected(self, wire: WireIndex) -> NetlistView {
        let (input, output) = self.wires[wire];
        NetlistView {
            pins: self.pins.insert(
                input,
                self.pins[input].relinked(InterconnectView::Input { connection: None }),
            ).insert(output, self.pins[output].without(set![input])),
            wires: self.wires.remove(wire),
            ..self
        }
    }

    /// Whether `wire` is a live wire with no end in `gone`.
    pub open spec fn wire_avoids(self, wire: WireIndex, gone: Set<PinIndex>) -> bool {
        &&& self.wires.contains_key(wire)
        &&& !gone.contains(self.wires[wire].0)
        &&& !gone.contains(self.wires[wire].1)
    }

    /// The netlist without the pins in `gone`: they leave the pin lists of the
    /// modules, every link to one of them is cleared, and every wire with an
    /// end at one of them is gone.
    pub open spec fn without_pins(self, gone: Set<PinIndex>) -> NetlistView {
        NetlistView {
            modules: Map::new(
                |m: ModuleIndex| self.modules.contains_key(m),
                |m: ModuleIndex| self.modules[m].without(gone),
            ),
            pins: Map::new(
                |p: PinIndex| self.pins.contains_key(p) && !gone.contains(p),
                |p: PinIndex| self.pins[p].without(gone),
            ),
            wires: Map::new(
                |w: WireIndex| self.wire_avoids(w, gone),
                |w: WireIndex| self.wires[w],
            ),
            ..self
        }
    }

    /// The netlist right after module `module` has left and before its pins
    /// follow.
    pub open spec fn orphaned(self, module: ModuleIndex) -> NetlistView {
        NetlistView { modules: self.modules.remove(module), ..self }
    }

    /// The netlist without module `module` and without the pins that it lists.
    pub open spec fn without_module(self, module: ModuleIndex) -> NetlistView {
        self.orphaned(module).without_pins(self.modules[module].pins().to_set())
    }
}

} // verus!
