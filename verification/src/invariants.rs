//! Every operation of the model keeps a netlist consistent.

use vstd::prelude::*;
use vstd::set_lib::lemma_len_subset;
use crate::handle::{ModuleIndex, PinIndex, WireIndex};
use crate::kinds::{InterconnectDirection, PinKind};
use crate::model::NetlistView;
use crate::pin::InterconnectView;
use crate::pinlist::{
    lemma_prune_contains,
    lemma_prune_disjoint,
    lemma_prune_no_duplicates,
    lemma_prune_twice,
    prune,
};

verus! {

impl NetlistView {
    /// Whether `after` has modules of `self` only, each with the lists and the
    /// id that it has in `self`, and the pins of `self`, each with the parent,
    /// the kind and the direction that it has in `self`.
    pub open spec fn same_frame(self, after: NetlistView) -> bool {
        &&& after.next_module_id == self.next_module_id
        &&& forall|m: ModuleIndex| #[trigger]
            after.modules.contains_key(m) ==> {
                &&& self.modules.contains_key(m)
                &&& after.modules[m].inputs == self.modules[m].inputs
                &&& after.modules[m].outputs == self.modules[m].outputs
                &&& after.modules[m].id == self.modules[m].id
            }
        &&& after.pins.dom() == self.pins.dom()
        &&& forall|p: PinIndex| #[trigger]
            self.pins.contains_key(p) ==> {
                &&& after.pins[p].parent == self.pins[p].parent
                &&& after.pins[p].kind == self.pins[p].kind
                &&& after.pins[p].interconnect.direction() == self.pins[p].interconnect.direction()
            }
    }

    /// What rests on the frame alone stays true while the frame stays.
    pub proof fn lemma_same_frame(self, after: NetlistView)
        requires
            self.pin_slots_distinct(),
            self.ids_distinct(),
            self.lists_owned(),
            self.same_frame(after),
        ensures
            after.pin_slots_distinct(),
            after.ids_distinct(),
            after.lists_owned(),
            self.pins_listed() && after.modules.dom() == self.modules.dom()
                ==> after.pins_listed(),
    {
        assert forall|a: PinIndex, b: PinIndex|
            #![trigger after.pins.contains_key(a), after.pins.contains_key(b)]
            after.pins.contains_key(a) && after.pins.contains_key(b) && a.0.slot
                == b.0.slot implies a == b by {
            assert(self.pins.contains_key(a) && self.pins.contains_key(b));
        }
        assert forall|m: ModuleIndex| #[trigger] after.modules.contains_key(m) implies 0
            <= after.modules[m].id < after.next_module_id by {
            assert(self.modules.contains_key(m));
        }
        assert forall|m: ModuleIndex, n: ModuleIndex|
            #![trigger after.modules.contains_key(m), after.modules.contains_key(n)]
            after.modules.contains_key(m) && after.modules.contains_key(n) && after.modules[m].id
                == after.modules[n].id implies m == n by {
            assert(self.modules.contains_key(m) && self.modules.contains_key(n));
        }
        assert forall|m: ModuleIndex| #[trigger] after.modules.contains_key(m) implies after.owns_lists(
            m,
        ) by {
            assert(self.owns_lists(m));
            let module = self.modules[m];
            assert forall|i: int| 0 <= i < module.inputs.len() implies after.owned_as(
                m,
                #[trigger] module.inputs[i],
                InterconnectDirection::Input,
            ) by {
                assert(self.owned_as(m, module.inputs[i], InterconnectDirection::Input));
            }
            assert forall|i: int| 0 <= i < module.outputs.len() implies after.owned_as(
                m,
                #[trigger] module.outputs[i],
                InterconnectDirection::Output,
            ) by {
                assert(self.owned_as(m, module.outputs[i], InterconnectDirection::Output));
            }
        }
        if self.pins_listed() && after.modules.dom() == self.modules.dom() {
            assert forall|p: PinIndex| #[trigger] after.pins.contains_key(p) implies after.listed(
                p,
            ) by {
                assert(self.pins.contains_key(p));
                assert(self.listed(p));
                assert(after.modules.dom().contains(self.pins[p].parent));
            }
        }
    }

    /// Whether `after` has counted as many modules, pins and wires as `self`
    /// and holds no module, pin or wire that `self` does not hold.
    pub open spec fn nothing_added(self, after: NetlistView) -> bool {
        &&& after.next_module_id == self.next_module_id
        &&& after.pins_made == self.pins_made
        &&& after.wires_made == self.wires_made
        &&& after.modules.dom().subset_of(self.modules.dom())
        &&& after.pins.dom().subset_of(self.pins.dom())
        &&& after.wires.dom().subset_of(self.wires.dom())
    }

    /// While nothing is added, the generation of the next handle does not go
    /// back, and a handle that is retired stays retired.
    pub proof fn lemma_nothing_added(self, after: NetlistView)
        requires
            self.generations_bounded(),
            self.nothing_added(after),
        ensures
            after.generations_bounded(),
            self.module_epoch() <= after.module_epoch(),
            self.pin_epoch() <= after.pin_epoch(),
            self.wire_epoch() <= after.wire_epoch(),
            forall|m: ModuleIndex| self.retired_module(m) ==> after.retired_module(m),
            forall|p: PinIndex| self.retired_pin(p) ==> after.retired_pin(p),
            forall|w: WireIndex| self.retired_wire(w) ==> after.retired_wire(w),
    {
        lemma_len_subset(after.modules.dom(), self.modules.dom());
        lemma_len_subset(after.pins.dom(), self.pins.dom());
        lemma_len_subset(after.wires.dom(), self.wires.dom());
        assert forall|m: ModuleIndex| #[trigger] after.modules.contains_key(m) implies m.0.generation
            <= after.module_epoch() by {
            assert(self.modules.dom().contains(m));
        }
        assert forall|p: PinIndex| #[trigger] after.pins.contains_key(p) implies p.0.generation
            <= after.pin_epoch() by {
            assert(self.pins.dom().contains(p));
        }
        assert forall|w: WireIndex| #[trigger] after.wires.contains_key(w) implies w.0.generation
            <= after.wire_epoch() by {
            assert(self.wires.dom().contains(w));
        }
        assert forall|m: ModuleIndex| self.retired_module(m) implies after.retired_module(m) by {
            if after.modules.contains_key(m) {
                assert(self.modules.dom().contains(m));
            }
        }
        assert forall|p: PinIndex| self.retired_pin(p) implies after.retired_pin(p) by {
            if after.pins.contains_key(p) {
                assert(self.pins.dom().contains(p));
            }
        }
        assert forall|w: WireIndex| self.retired_wire(w) implies after.retired_wire(w) by {
            if after.wires.contains_key(w) {
                assert(self.wires.dom().contains(w));
            }
        }
    }

    /// Adding under a handle that does not resolve leaves the generation of
    /// the next handle where it is.
    pub proof fn lemma_additions_keep_epochs(
        self,
        module: ModuleIndex,
        pin: PinIndex,
        wire: WireIndex,
    )
        requires
            self.generations_bounded(),
        ensures
            !self.modules.contains_key(module) && self.next_module_id < i32::MAX
                ==> forall|name: Seq<char>|
                (#[trigger] self.with_module(module, name)).module_epoch() == self.module_epoch(),
            !self.pins.contains_key(pin) && self.pins_made < u64::MAX ==> forall|
                parent: ModuleIndex,
                name: Seq<char>,
                kind: PinKind,
                direction: InterconnectDirection,
            |
                (#[trigger] self.with_pin(pin, parent, name, kind, direction)).pin_epoch()
                    == self.pin_epoch(),
            !self.wires.contains_key(wire) && self.wires_made < u64::MAX ==> forall|
                input: PinIndex,
                output: PinIndex,
            |
                (#[trigger] self.connected(wire, input, output)).wire_epoch() == self.wire_epoch(),
    {
        assert forall|name: Seq<char>|
            !self.modules.contains_key(module) implies (#[trigger] self.with_module(
            module,
            name,
        )).modules.len() == self.modules.len() + 1 by {
            assert(self.with_module(module, name).modules.dom() =~= self.modules.dom().insert(
                module,
            ));
        }
        assert forall|
            parent: ModuleIndex,
            name: Seq<char>,
            kind: PinKind,
            direction: InterconnectDirection,
        |
            !self.pins.contains_key(pin) implies (#[trigger] self.with_pin(
            pin,
            parent,
            name,
            kind,
            direction,
        )).pins.len() == self.pins.len() + 1 by {
            assert(self.with_pin(pin, parent, name, kind, direction).pins.dom()
                =~= self.pins.dom().insert(pin));
        }
        assert forall|input: PinIndex, output: PinIndex|
            !self.wires.contains_key(wire) implies (#[trigger] self.connected(
            wire,
            input,
            output,
        )).wires.len() == self.wires.len() + 1 by {
            assert(self.connected(wire, input, output).wires.dom() =~= self.wires.dom().insert(
                wire,
            ));
        }
    }

    /// Whether `after` has the wires of `self` and the pins of `self`, each
    /// with the links and the kind that it has in `self`.
    pub open spec fn same_links(self, after: NetlistView) -> bool {
        &&& after.wires == self.wires
        &&& after.pins.dom() == self.pins.dom()
        &&& forall|p: PinIndex| #[trigger]
            self.pins.contains_key(p) ==> after.pins[p].interconnect == self.pins[p].interconnect
                && after.pins[p].kind == self.pins[p].kind
    }

    /// What rests on the links alone stays true while the links stay.
    pub proof fn lemma_same_links(self, after: NetlistView)
        requires
            self.links_mirrored(),
            self.wires_linked(),
            self.links_recorded(),
            self.same_links(after),
        ensures
            after.links_mirrored(),
            after.wires_linked(),
            after.links_recorded(),
    {
        assert forall|p: PinIndex| #[trigger] after.pins.contains_key(p) implies after.mirrored(
            p,
        ) by {
            assert(self.pins.contains_key(p));
            assert(self.mirrored(p));
            match self.pins[p].interconnect {
                InterconnectView::Input { connection: Some(o) } => {
                    assert(self.drives(o, p));
                },
                InterconnectView::Input { connection: None } => {},
                InterconnectView::Output { connections } => {
                    assert forall|j: int| 0 <= j < connections.len() implies after.driven_by(
                        #[trigger] connections[j],
                        p,
                    ) by {
                        assert(self.driven_by(connections[j], p));
                    }
                },
            }
        }
        assert forall|w: WireIndex| #[trigger] after.wires.contains_key(w) implies after.driven_by(
            after.wires[w].0,
            after.wires[w].1,
        ) by {
            assert(self.driven_by(self.wires[w].0, self.wires[w].1));
        }
        assert forall|p: PinIndex| #[trigger]
            after.pins.contains_key(p) && after.pins[p].driver().is_some() implies after.recorded(
            p,
        ) by {
            assert(self.pins.contains_key(p));
            assert(self.recorded(p));
            let w = choose|w: WireIndex| #[trigger] self.records(w, p);
            assert(after.records(w, p));
        }
    }

    /// Adding a module keeps a netlist consistent.
    pub proof fn lemma_with_module_wf(self, module: ModuleIndex, name: Seq<char>)
        requires
            self.wf(),
            !self.modules.contains_key(module),
            module.0.generation == self.module_epoch(),
            self.next_module_id < i32::MAX,
        ensures
            self.with_module(module, name).wf(),
    {
        let after = self.with_module(module, name);
        self.lemma_same_links(after);
        assert(after.modules.dom() =~= self.modules.dom().insert(module));
        assert forall|m: ModuleIndex| #[trigger] after.modules.contains_key(m) implies m.0.generation
            <= after.module_epoch() by {
            if m != module {
                assert(self.modules.contains_key(m));
            }
        }
        assert forall|m: ModuleIndex| #[trigger] after.modules.contains_key(m) implies 0
            <= after.modules[m].id < after.next_module_id by {
            if m != module {
                assert(self.modules.contains_key(m));
            }
        }
        assert forall|m: ModuleIndex, n: ModuleIndex|
            #![trigger after.modules.contains_key(m), after.modules.contains_key(n)]
            after.modules.contains_key(m) && after.modules.contains_key(n) && after.modules[m].id
                == after.modules[n].id implies m == n by {
            if m != module {
                assert(self.modules.contains_key(m));
            }
            if n != module {
                assert(self.modules.contains_key(n));
            }
        }
        assert forall|m: ModuleIndex| #[trigger] after.modules.contains_key(m) implies after.owns_lists(
            m,
        ) by {
            if m != module {
                assert(self.owns_lists(m));
            }
        }
        assert forall|p: PinIndex| #[trigger] after.pins.contains_key(p) implies after.listed(
            p,
        ) by {
            assert(self.listed(p));
        }
    }

    /// Moving a module keeps a netlist consistent.
    pub proof fn lemma_moved_wf(self, module: ModuleIndex, position: (u32, u32))
        requires
            self.wf(),
            self.modules.contains_key(module),
        ensures
            self.moved(module, position).wf(),
    {
        let after = self.moved(module, position);
        assert(after.modules.dom() =~= self.modules.dom());
        self.lemma_nothing_added(after);
        self.lemma_same_frame(after);
        self.lemma_same_links(after);
    }

    /// Adding a pin to a live module keeps a netlist consistent.
    pub proof fn lemma_with_pin_wf(
        self,
        pin: PinIndex,
        module: ModuleIndex,
        name: Seq<char>,
        kind: PinKind,
        direction: InterconnectDirection,
    )
        requires
            self.wf(),
            self.modules.contains_key(module),
            self.pin_slot_free(pin),
            pin.0.generation == self.pin_epoch(),
            self.pins_made < u64::MAX,
        ensures
            self.with_pin(pin, module, name, kind, direction).wf(),
    {
        let after = self.with_pin(pin, module, name, kind, direction);
        assert(!self.pins.contains_key(pin));
        assert(after.pins.dom() =~= self.pins.dom().insert(pin));
        assert(after.modules.dom() =~= self.modules.dom());
        assert forall|p: PinIndex| #[trigger] after.pins.contains_key(p) implies p.0.generation
            <= after.pin_epoch() by {
            if p != pin {
                assert(self.pins.contains_key(p));
            }
        }
        assert forall|m: ModuleIndex| #[trigger] after.modules.contains_key(m) implies m.0.generation
            <= after.module_epoch() by {
            assert(self.modules.contains_key(m));
        }
        assert forall|a: PinIndex, b: PinIndex|
            #![trigger after.pins.contains_key(a), after.pins.contains_key(b)]
            after.pins.contains_key(a) && after.pins.contains_key(b) && a.0.slot
                == b.0.slot implies a == b by {
            if a != pin {
                assert(self.pins.contains_key(a));
            }
            if b != pin {
                assert(self.pins.contains_key(b));
            }
        }
        assert forall|m: ModuleIndex| #[trigger] after.modules.contains_key(m) implies 0
            <= after.modules[m].id < after.next_module_id by {
            assert(self.modules.contains_key(m));
        }
        assert forall|m: ModuleIndex, n: ModuleIndex|
            #![trigger after.modules.contains_key(m), after.modules.contains_key(n)]
            after.modules.contains_key(m) && after.modules.contains_key(n) && after.modules[m].id
                == after.modules[n].id implies m == n by {
            assert(self.modules.contains_key(m) && self.modules.contains_key(n));
        }
        assert forall|m: ModuleIndex| #[trigger] after.modules.contains_key(m) implies after.owns_lists(
            m,
        ) by {
            assert(self.owns_lists(m));
            let before = self.modules[m];
            let grown = after.modules[m];
            assert forall|i: int| 0 <= i < before.inputs.len() implies self.pins.contains_key(
                #[trigger] before.inputs[i],
            ) by {
                assert(self.owned_as(m, before.inputs[i], InterconnectDirection::Input));
            }
            assert forall|i: int| 0 <= i < before.outputs.len() implies self.pins.contains_key(
                #[trigger] before.outputs[i],
            ) by {
                assert(self.owned_as(m, before.outputs[i], InterconnectDirection::Output));
            }
            assert forall|i: int| 0 <= i < grown.inputs.len() implies after.owned_as(
                m,
                #[trigger] grown.inputs[i],
                InterconnectDirection::Input,
            ) by {
                if i < before.inputs.len() {
                    assert(self.owned_as(m, before.inputs[i], InterconnectDirection::Input));
                }
            }
            assert forall|i: int| 0 <= i < grown.outputs.len() implies after.owned_as(
                m,
                #[trigger] grown.outputs[i],
                InterconnectDirection::Output,
            ) by {
                if i < before.outputs.len() {
                    assert(self.owned_as(m, before.outputs[i], InterconnectDirection::Output));
                }
            }
        }
        assert forall|p: PinIndex| #[trigger] after.pins.contains_key(p) implies after.listed(
            p,
        ) by {
            let grown = after.modules[module];
            if p == pin {
                match direction {
                    InterconnectDirection::Input => {
                        assert(grown.inputs[grown.inputs.len() - 1] == pin);
                    },
                    InterconnectDirection::Output => {
                        assert(grown.outputs[grown.outputs.len() - 1] == pin);
                    },
                }
            } else {
                assert(self.listed(p));
                if self.pins[p].parent == module {
                    let before = self.modules[module];
                    if self.pins[p].is_input() {
                        let i = choose|i: int| 0 <= i < before.inputs.len() && before.inputs[i] == p;
                        assert(grown.inputs[i] == p);
                    } else {
                        let i = choose|i: int|
                            0 <= i < before.outputs.len() && before.outputs[i] == p;
                        assert(grown.outputs[i] == p);
                    }
                }
            }
        }
        assert forall|p: PinIndex| #[trigger] after.pins.contains_key(p) implies after.mirrored(
            p,
        ) by {
            if p != pin {
                assert(self.mirrored(p));
            }
        }
        assert forall|w: WireIndex| #[trigger] after.wires.contains_key(w) implies after.driven_by(
            after.wires[w].0,
            after.wires[w].1,
        ) by {
            assert(self.driven_by(self.wires[w].0, self.wires[w].1));
        }
        assert forall|p: PinIndex| #[trigger]
            after.pins.contains_key(p) && after.pins[p].driver().is_some() implies after.recorded(
            p,
        ) by {
            assert(self.pins.contains_key(p));
            assert(self.recorded(p));
            let w = choose|w: WireIndex| #[trigger] self.records(w, p);
            assert(after.records(w, p));
        }
    }

    /// Wiring an undriven input to an output of its kind keeps a netlist
    /// consistent.
    pub proof fn lemma_connected_wf(self, wire: WireIndex, input: PinIndex, output: PinIndex)
        requires
            self.wf(),
            self.pins.contains_key(input),
            self.pins.contains_key(output),
            self.pins[input].interconnect == (InterconnectView::Input { connection: None }),
            self.pins[output].is_output(),
            self.pins[input].kind == self.pins[output].kind,
            !self.wires.contains_key(wire),
            wire.0.generation == self.wire_epoch(),
            self.wires_made < u64::MAX,
        ensures
            self.connected(wire, input, output).wf(),
    {
        let after = self.connected(wire, input, output);
        let fanout = self.pins[output].driven();
        assert(self.mirrored(output));
        assert(after.pins.dom() =~= self.pins.dom());
        assert(after.wires.dom() =~= self.wires.dom().insert(wire));
        assert forall|w: WireIndex| #[trigger] after.wires.contains_key(w) implies w.0.generation
            <= after.wire_epoch() by {
            if w != wire {
                assert(self.wires.contains_key(w));
            }
        }
        assert forall|p: PinIndex| #[trigger] after.pins.contains_key(p) implies p.0.generation
            <= after.pin_epoch() by {
            assert(self.pins.contains_key(p));
        }
        self.lemma_same_frame(after);
        assert forall|j: int| 0 <= j < fanout.len() implies #[trigger] fanout[j] != input
            && fanout[j] != output by {
            assert(self.driven_by(fanout[j], output));
        }
        assert forall|p: PinIndex| #[trigger] after.pins.contains_key(p) implies after.mirrored(
            p,
        ) by {
            assert(self.mirrored(p));
            if p == input {
                assert(fanout.push(input)[fanout.len() as int] == input);
            } else if p == output {
                let grown = fanout.push(input);
                assert forall|j: int| 0 <= j < grown.len() implies after.driven_by(
                    #[trigger] grown[j],
                    output,
                ) by {
                    if j < fanout.len() {
                        assert(self.driven_by(fanout[j], output));
                    }
                }
            } else {
                match self.pins[p].interconnect {
                    InterconnectView::Input { connection: Some(o) } => {
                        assert(self.drives(o, p));
                        if o == output {
                            let j = choose|j: int| 0 <= j < fanout.len() && fanout[j] == p;
                            assert(fanout.push(input)[j] == p);
                        }
                    },
                    InterconnectView::Input { connection: None } => {},
                    InterconnectView::Output { connections } => {
                        assert forall|j: int| 0 <= j < connections.len() implies after.driven_by(
                            #[trigger] connections[j],
                            p,
                        ) by {
                            assert(self.driven_by(connections[j], p));
                        }
                    },
                }
            }
        }
        assert forall|w: WireIndex| #[trigger] after.wires.contains_key(w) implies after.driven_by(
            after.wires[w].0,
            after.wires[w].1,
        ) by {
            if w != wire {
                assert(self.wires.contains_key(w));
                assert(self.driven_by(self.wires[w].0, self.wires[w].1));
            }
        }
        assert forall|w: WireIndex, x: WireIndex|
            #![trigger after.wires.contains_key(w), after.wires.contains_key(x)]
            after.wires.contains_key(w) && after.wires.contains_key(x) && after.wires[w].0
                == after.wires[x].0 implies w == x by {
            if w != wire {
                assert(self.wires.contains_key(w));
                assert(self.driven_by(self.wires[w].0, self.wires[w].1));
            }
            if x != wire {
                assert(self.wires.contains_key(x));
                assert(self.driven_by(self.wires[x].0, self.wires[x].1));
            }
        }
        assert forall|p: PinIndex| #[trigger]
            after.pins.contains_key(p) && after.pins[p].driver().is_some() implies after.recorded(
            p,
        ) by {
            if p == input {
                assert(after.records(wire, p));
            } else {
                assert(self.pins.contains_key(p));
                assert(self.recorded(p));
                let w = choose|w: WireIndex| #[trigger] self.records(w, p);
                assert(after.records(w, p));
            }
        }
    }

    /// Removing a wire keeps a netlist consistent.
    pub proof fn lemma_disconnected_wf(self, wire: WireIndex)
        requires
            self.wf(),
            self.wires.contains_key(wire),
        ensures
            self.disconnected(wire).wf(),
    {
        let after = self.disconnected(wire);
        let (input, output) = self.wires[wire];
        let gone = set![input];
        let fanout = self.pins[output].driven();
        let pruned = prune(fanout, gone);
        assert(self.driven_by(input, output));
        assert(self.mirrored(input));
        assert(self.mirrored(output));
        assert(after.pins.dom() =~= self.pins.dom());
        self.lemma_nothing_added(after);
        self.lemma_same_frame(after);
        lemma_prune_no_duplicates(fanout, gone);
        assert forall|j: int| 0 <= j < pruned.len() implies after.driven_by(
            #[trigger] pruned[j],
            output,
        ) by {
            lemma_prune_contains(fanout, gone, pruned[j]);
            let k = choose|k: int| 0 <= k < fanout.len() && fanout[k] == pruned[j];
            assert(self.driven_by(fanout[k], output));
        }
        assert forall|p: PinIndex| #[trigger] after.pins.contains_key(p) implies after.mirrored(
            p,
        ) by {
            assert(self.mirrored(p));
            if p != input && p != output {
                match self.pins[p].interconnect {
                    InterconnectView::Input { connection: Some(o) } => {
                        assert(self.drives(o, p));
                        if o == output {
                            lemma_prune_contains(fanout, gone, p);
                        }
                    },
                    InterconnectView::Input { connection: None } => {},
                    InterconnectView::Output { connections } => {
                        assert forall|j: int| 0 <= j < connections.len() implies after.driven_by(
                            #[trigger] connections[j],
                            p,
                        ) by {
                            assert(self.driven_by(connections[j], p));
                        }
                    },
                }
            }
        }
        assert forall|w: WireIndex| #[trigger] after.wires.contains_key(w) implies after.driven_by(
            after.wires[w].0,
            after.wires[w].1,
        ) by {
            assert(self.wires.contains_key(w));
            assert(self.driven_by(self.wires[w].0, self.wires[w].1));
        }
        assert forall|w: WireIndex, x: WireIndex|
            #![trigger after.wires.contains_key(w), after.wires.contains_key(x)]
            after.wires.contains_key(w) && after.wires.contains_key(x) && after.wires[w].0
                == after.wires[x].0 implies w == x by {
            assert(self.wires.contains_key(w) && self.wires.contains_key(x));
        }
        assert forall|p: PinIndex| #[trigger]
            after.pins.contains_key(p) && after.pins[p].driver().is_some() implies after.recorded(
            p,
        ) by {
            assert(self.pins.contains_key(p));
            assert(self.recorded(p));
            let w = choose|w: WireIndex| #[trigger] self.records(w, p);
            assert(after.records(w, p));
        }
    }

    /// Taking pins out keeps what holds while a module is being taken apart.
    pub proof fn lemma_without_pins_core_wf(self, gone: Set<PinIndex>)
        requires
            self.core_wf(),
        ensures
            self.without_pins(gone).core_wf(),
    {
        let after = self.without_pins(gone);
        assert(after.modules.dom() =~= self.modules.dom());
        self.lemma_nothing_added(after);
        assert forall|m: ModuleIndex| #[trigger] after.modules.contains_key(m) implies after.owns_lists(
            m,
        ) by {
            assert(self.owns_lists(m));
            let before = self.modules[m];
            let pruned = after.modules[m];
            lemma_prune_no_duplicates(before.inputs, gone);
            lemma_prune_no_duplicates(before.outputs, gone);
            assert forall|i: int| 0 <= i < pruned.inputs.len() implies after.owned_as(
                m,
                #[trigger] pruned.inputs[i],
                InterconnectDirection::Input,
            ) by {
                let p = pruned.inputs[i];
                lemma_prune_contains(before.inputs, gone, p);
                let k = choose|k: int| 0 <= k < before.inputs.len() && before.inputs[k] == p;
                assert(self.owned_as(m, before.inputs[k], InterconnectDirection::Input));
            }
            assert forall|i: int| 0 <= i < pruned.outputs.len() implies after.owned_as(
                m,
                #[trigger] pruned.outputs[i],
                InterconnectDirection::Output,
            ) by {
                let p = pruned.outputs[i];
                lemma_prune_contains(before.outputs, gone, p);
                let k = choose|k: int| 0 <= k < before.outputs.len() && before.outputs[k] == p;
                assert(self.owned_as(m, before.outputs[k], InterconnectDirection::Output));
            }
        }
        assert forall|m: ModuleIndex| #[trigger] after.modules.contains_key(m) implies 0
            <= after.modules[m].id < after.next_module_id by {
            assert(self.modules.contains_key(m));
        }
        assert forall|m: ModuleIndex, n: ModuleIndex|
            #![trigger after.modules.contains_key(m), after.modules.contains_key(n)]
            after.modules.contains_key(m) && after.modules.contains_key(n) && after.modules[m].id
                == after.modules[n].id implies m == n by {
            assert(self.modules.contains_key(m) && self.modules.contains_key(n));
        }
        assert forall|a: PinIndex, b: PinIndex|
            #![trigger after.pins.contains_key(a), after.pins.contains_key(b)]
            after.pins.contains_key(a) && after.pins.contains_key(b) && a.0.slot
                == b.0.slot implies a == b by {
            assert(self.pins.contains_key(a) && self.pins.contains_key(b));
        }
        assert forall|p: PinIndex| #[trigger] after.pins.contains_key(p) implies after.mirrored(
            p,
        ) by {
            assert(self.pins.contains_key(p));
            assert(self.mirrored(p));
            match self.pins[p].interconnect {
                InterconnectView::Input { connection: Some(o) } => {
                    if !gone.contains(o) {
                        assert(self.drives(o, p));
                        lemma_prune_contains(self.pins[o].driven(), gone, p);
                    }
                },
                InterconnectView::Input { connection: None } => {},
                InterconnectView::Output { connections } => {
                    let pruned = prune(connections, gone);
                    lemma_prune_no_duplicates(connections, gone);
                    assert forall|j: int| 0 <= j < pruned.len() implies after.driven_by(
                        #[trigger] pruned[j],
                        p,
                    ) by {
                        lemma_prune_contains(connections, gone, pruned[j]);
                        let k = choose|k: int|
                            0 <= k < connections.len() && connections[k] == pruned[j];
                        assert(self.driven_by(connections[k], p));
                    }
                },
            }
        }
        assert forall|w: WireIndex| #[trigger] after.wires.contains_key(w) implies after.driven_by(
            after.wires[w].0,
            after.wires[w].1,
        ) by {
            assert(self.wires.contains_key(w));
            assert(self.driven_by(self.wires[w].0, self.wires[w].1));
        }
        assert forall|w: WireIndex, x: WireIndex|
            #![trigger after.wires.contains_key(w), after.wires.contains_key(x)]
            after.wires.contains_key(w) && after.wires.contains_key(x) && after.wires[w].0
                == after.wires[x].0 implies w == x by {
            assert(self.wires.contains_key(w) && self.wires.contains_key(x));
        }
        assert forall|p: PinIndex| #[trigger]
            after.pins.contains_key(p) && after.pins[p].driver().is_some() implies after.recorded(
            p,
        ) by {
            assert(self.pins.contains_key(p));
            assert(self.recorded(p));
            let w = choose|w: WireIndex| #[trigger] self.records(w, p);
            assert(self.driven_by(self.wires[w].0, self.wires[w].1));
            assert(after.records(w, p));
        }
    }

    /// Taking pins out keeps a netlist consistent.
    pub proof fn lemma_without_pins_wf(self, gone: Set<PinIndex>)
        requires
            self.wf(),
        ensures
            self.without_pins(gone).wf(),
    {
        let after = self.without_pins(gone);
        self.lemma_without_pins_core_wf(gone);
        assert forall|p: PinIndex| #[trigger] after.pins.contains_key(p) implies after.listed(
            p,
        ) by {
            assert(self.pins.contains_key(p));
            assert(self.listed(p));
            let parent = self.modules[self.pins[p].parent];
            lemma_prune_contains(parent.inputs, gone, p);
            lemma_prune_contains(parent.outputs, gone, p);
        }
    }

    /// Taking out one set of pins and then another is taking out their union.
    pub proof fn lemma_without_pins_twice(self, first: Set<PinIndex>, second: Set<PinIndex>)
        ensures
            self.without_pins(first).without_pins(second) == self.without_pins(
                first.union(second),
            ),
    {
        let twice = self.without_pins(first).without_pins(second);
        let once = self.without_pins(first.union(second));
        assert forall|m: ModuleIndex| #[trigger] once.modules.contains_key(m) implies twice.modules[m]
            == once.modules[m] by {
            lemma_prune_twice(self.modules[m].inputs, first, second);
            lemma_prune_twice(self.modules[m].outputs, first, second);
        }
        assert(twice.modules =~= once.modules);
        assert forall|p: PinIndex| #[trigger] once.pins.contains_key(p) implies twice.pins[p]
            == once.pins[p] by {
            match self.pins[p].interconnect {
                InterconnectView::Input { connection } => {},
                InterconnectView::Output { connections } => {
                    lemma_prune_twice(connections, first, second);
                },
            }
        }
        assert(twice.pins =~= once.pins);
        assert(twice.wires =~= once.wires);
    }

    /// Taking out no pin changes nothing.
    pub proof fn lemma_without_no_pins(self)
        ensures
            self.without_pins(Set::empty()) == self,
    {
        let gone = Set::<PinIndex>::empty();
        let after = self.without_pins(gone);
        assert forall|m: ModuleIndex| #[trigger] self.modules.contains_key(m) implies after.modules[m]
            == self.modules[m] by {
            lemma_prune_disjoint(self.modules[m].inputs, gone);
            lemma_prune_disjoint(self.modules[m].outputs, gone);
        }
        assert(after.modules =~= self.modules);
        assert forall|p: PinIndex| #[trigger] self.pins.contains_key(p) implies after.pins[p]
            == self.pins[p] by {
            match self.pins[p].interconnect {
                InterconnectView::Input { connection } => {},
                InterconnectView::Output { connections } => {
                    lemma_prune_disjoint(connections, gone);
                },
            }
        }
        assert(after.pins =~= self.pins);
        assert(after.wires =~= self.wires);
    }

    /// Where one live pin is taken out, only its parent's list of its
    /// direction and its link partners change.
    pub proof fn lemma_without_pin_is_local(self, pin: PinIndex)
        requires
            self.core_wf(),
            self.pins.contains_key(pin),
        ensures
            forall|m: ModuleIndex| #[trigger]
                self.modules.contains_key(m) && m != self.pins[pin].parent
                    ==> self.modules[m].without(set![pin]) == self.modules[m],
            self.modules.contains_key(self.pins[pin].parent) && self.pins[pin].is_input()
                ==> prune(self.modules[self.pins[pin].parent].outputs, set![pin])
                == self.modules[self.pins[pin].parent].outputs,
            self.modules.contains_key(self.pins[pin].parent) && self.pins[pin].is_output()
                ==> prune(self.modules[self.pins[pin].parent].inputs, set![pin])
                == self.modules[self.pins[pin].parent].inputs,
            forall|q: PinIndex| #[trigger]
                self.pins.contains_key(q) && q != pin && !self.pins[pin].interconnect.links_to(q)
                    ==> self.pins[q].without(set![pin]) == self.pins[q],
            forall|q: PinIndex| #[trigger]
                self.pins.contains_key(q) && q != pin && self.pins[pin].is_output()
                    && self.pins[pin].interconnect.links_to(q) ==> self.pins[q].without(set![pin])
                    == self.pins[q].relinked(InterconnectView::Input { connection: None }),
    {
        let gone = set![pin];
        assert forall|m: ModuleIndex| #[trigger] self.modules.contains_key(m) implies (m
            != self.pins[pin].parent ==> self.modules[m].without(gone) == self.modules[m]) && (
        self.pins[pin].is_input() ==> prune(self.modules[m].outputs, gone)
            == self.modules[m].outputs) && (self.pins[pin].is_output() ==> prune(
            self.modules[m].inputs,
            gone,
        ) == self.modules[m].inputs) by {
            let module = self.modules[m];
            assert(self.owns_lists(m));
            assert forall|i: int| 0 <= i < module.inputs.len() implies self.owned_as(
                m,
                #[trigger] module.inputs[i],
                InterconnectDirection::Input,
            ) by {}
            assert forall|i: int| 0 <= i < module.outputs.len() implies self.owned_as(
                m,
                #[trigger] module.outputs[i],
                InterconnectDirection::Output,
            ) by {}
            if m != self.pins[pin].parent {
                lemma_prune_disjoint(module.inputs, gone);
                lemma_prune_disjoint(module.outputs, gone);
            }
            if self.pins[pin].is_input() {
                lemma_prune_disjoint(module.outputs, gone);
            }
            if self.pins[pin].is_output() {
                lemma_prune_disjoint(module.inputs, gone);
            }
        }
        assert(self.mirrored(pin));
        assert forall|q: PinIndex| #[trigger]
            self.pins.contains_key(q) && q != pin implies (!self.pins[pin].interconnect.links_to(q)
            ==> self.pins[q].without(gone) == self.pins[q]) && (self.pins[pin].is_output()
            && self.pins[pin].interconnect.links_to(q) ==> self.pins[q].without(gone)
            == self.pins[q].relinked(InterconnectView::Input { connection: None })) by {
            assert(self.mirrored(q));
            match self.pins[q].interconnect {
                InterconnectView::Input { connection: Some(o) } => {
                    if o == pin {
                        assert(self.drives(pin, q));
                    }
                },
                InterconnectView::Input { connection: None } => {
                    if self.pins[pin].is_output() && self.pins[pin].interconnect.links_to(q) {
                        let cs = self.pins[pin].driven();
                        let j = choose|j: int| 0 <= j < cs.len() && cs[j] == q;
                        assert(self.driven_by(cs[j], pin));
                    }
                },
                InterconnectView::Output { connections } => {
                    if self.pins[pin].is_output() && self.pins[pin].interconnect.links_to(q) {
                        let cs = self.pins[pin].driven();
                        let j = choose|j: int| 0 <= j < cs.len() && cs[j] == q;
                        assert(self.driven_by(cs[j], pin));
                    }
                    if !self.pins[pin].interconnect.links_to(q) {
                        assert forall|j: int| 0 <= j < connections.len() implies !gone.contains(
                            #[trigger] connections[j],
                        ) by {
                            assert(self.driven_by(connections[j], q));
                        }
                        lemma_prune_disjoint(connections, gone);
                    }
                },
            }
        }
    }

    /// A netlist whose module has just left still has what holds while a
    /// module is being taken apart.
    pub proof fn lemma_orphaned_core_wf(self, module: ModuleIndex)
        requires
            self.core_wf(),
        ensures
            self.orphaned(module).core_wf(),
    {
        let after = self.orphaned(module);
        self.lemma_nothing_added(after);
        self.lemma_same_frame(after);
        self.lemma_same_links(after);
    }

    /// Removing a module keeps a netlist consistent.
    pub proof fn lemma_without_module_wf(self, module: ModuleIndex)
        requires
            self.wf(),
            self.modules.contains_key(module),
        ensures
            self.without_module(module).wf(),
    {
        let base = self.orphaned(module);
        let listed = self.modules[module].pins();
        let gone = listed.to_set();
        let after = self.without_module(module);
        self.lemma_orphaned_core_wf(module);
        base.lemma_without_pins_core_wf(gone);
        assert forall|p: PinIndex| #[trigger] after.pins.contains_key(p) implies after.listed(
            p,
        ) by {
            assert(self.pins.contains_key(p));
            assert(self.listed(p));
            let parent = self.pins[p].parent;
            if parent == module {
                let m = self.modules[module];
                if self.pins[p].is_input() {
                    let i = choose|i: int| 0 <= i < m.inputs.len() && m.inputs[i] == p;
                    assert(listed[i] == p);
                } else {
                    let i = choose|i: int| 0 <= i < m.outputs.len() && m.outputs[i] == p;
                    assert(listed[m.inputs.len() + i] == p);
                }
                assert(listed.contains(p));
            }
            lemma_prune_contains(self.modules[parent].inputs, gone, p);
            lemma_prune_contains(self.modules[parent].outputs, gone, p);
        }
    }
}

} // verus!
