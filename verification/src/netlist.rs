//! The netlist: three arenas of modules, pins and wires, and the operations
//! that keep them consistent.

use vstd::prelude::*;
use vstd::set_lib::{lemma_len_subset, lemma_map_size};
use generational_arena::Arena;
use crate::arena;
use crate::arena::{
    module_generation,
    module_slots,
    pin_generation,
    pin_slots,
    wire_generation,
    wire_slots,
};
use crate::error::ConnectionError;
use crate::handle::{
    is_slot_order,
    lemma_slot_order_is,
    Handle,
    ModuleIndex,
    PinIndex,
    WireIndex,
};
use crate::kinds::{InterconnectDirection, PinKind};
use crate::laws::{
    law_removed_handles_are_retired,
    law_removed_module_takes_its_pins,
    law_removed_pins_leave_no_trace,
    law_wire_links_both_ends,
};
use crate::model::NetlistView;
use crate::module::Module;
use crate::pin::{Interconnect, InterconnectView, Pin};
use crate::pinlist::{lemma_concat_contains, lemma_push_contains};

verus! {

/// An editable circuit graph.
#[derive(Debug)]
pub struct Netlist {
    modules: Arena<Module>,
    pins: Arena<Pin>,
    wires: Arena<(PinIndex, PinIndex)>,
    next_mod_idx: i32,
    pins_made: u64,
    wires_made: u64,
}

impl View for Netlist {
    type V = NetlistView;

    closed spec fn view(&self) -> NetlistView {
        NetlistView {
            modules: Map::new(
                |m: ModuleIndex| module_slots(self.modules).contains_key(m.0),
                |m: ModuleIndex| module_slots(self.modules)[m.0]@,
            ),
            pins: Map::new(
                |p: PinIndex| pin_slots(self.pins).contains_key(p.0),
                |p: PinIndex| pin_slots(self.pins)[p.0]@,
            ),
            wires: Map::new(
                |w: WireIndex| wire_slots(self.wires).contains_key(w.0),
                |w: WireIndex| wire_slots(self.wires)[w.0],
            ),
            next_module_id: self.next_mod_idx,
            pins_made: self.pins_made,
            wires_made: self.wires_made,
        }
    }
}

impl Default for Netlist {
    fn default() -> (netlist: Netlist)
        ensures
            netlist@ == NetlistView::empty(),
            netlist.wf(),
    {
        Netlist::new()
    }
}

impl Netlist {
    /// Whether the netlist is consistent. Every operation keeps it so.
    pub open spec fn wf(&self) -> bool {
        self@.wf() && self.counters_agree()
    }

    /// Whether each arena has counted as many removals as the netlist has
    /// counted additions that are no longer there.
    pub closed spec fn counters_agree(&self) -> bool {
        &&& module_slots(self.modules).dom().finite()
        &&& pin_slots(self.pins).dom().finite()
        &&& wire_slots(self.wires).dom().finite()
        &&& module_generation(self.modules) + module_slots(self.modules).len()
            == self.next_mod_idx
        &&& pin_generation(self.pins) + pin_slots(self.pins).len() == self.pins_made
        &&& wire_generation(self.wires) + wire_slots(self.wires).len() == self.wires_made
    }

    /// The netlist holds as many modules, pins and wires as its arenas do, so
    /// the generation of the next handle of each kind is the count of
    /// removals of its arena.
    proof fn lemma_epochs(&self)
        requires
            self.counters_agree(),
        ensures
            self@.modules.dom().finite(),
            self@.pins.dom().finite(),
            self@.wires.dom().finite(),
            self@.modules.len() == module_slots(self.modules).len(),
            self@.pins.len() == pin_slots(self.pins).len(),
            self@.wires.len() == wire_slots(self.wires).len(),
            self@.module_epoch() == module_generation(self.modules),
            self@.pin_epoch() == pin_generation(self.pins),
            self@.wire_epoch() == wire_generation(self.wires),
    {
        let modules = module_slots(self.modules).dom();
        let as_module = |h: Handle| ModuleIndex(h);
        assert(modules.map(as_module) =~= self@.modules.dom()) by {
            assert forall|m: ModuleIndex| self@.modules.dom().contains(m) implies modules.map(
                as_module,
            ).contains(m) by {
                assert(modules.contains(m.0) && as_module(m.0) == m);
            }
        }
        modules.lemma_map_finite(as_module);
        lemma_map_size(modules, self@.modules.dom(), as_module);
        let pins = pin_slots(self.pins).dom();
        let as_pin = |h: Handle| PinIndex(h);
        assert(pins.map(as_pin) =~= self@.pins.dom()) by {
            assert forall|p: PinIndex| self@.pins.dom().contains(p) implies pins.map(
                as_pin,
            ).contains(p) by {
                assert(pins.contains(p.0) && as_pin(p.0) == p);
            }
        }
        pins.lemma_map_finite(as_pin);
        lemma_map_size(pins, self@.pins.dom(), as_pin);
        let wires = wire_slots(self.wires).dom();
        let as_wire = |h: Handle| WireIndex(h);
        assert(wires.map(as_wire) =~= self@.wires.dom()) by {
            assert forall|w: WireIndex| self@.wires.dom().contains(w) implies wires.map(
                as_wire,
            ).contains(w) by {
                assert(wires.contains(w.0) && as_wire(w.0) == w);
            }
        }
        wires.lemma_map_finite(as_wire);
        lemma_map_size(wires, self@.wires.dom(), as_wire);
    }

    /// A netlist that holds nothing.
    pub fn new() -> (netlist: Netlist)
        ensures
            netlist@ == NetlistView::empty(),
            netlist.wf(),
    {
        let netlist = Netlist {
            modules: arena::new_module_arena(),
            pins: arena::new_pin_arena(),
            wires: arena::new_wire_arena(),
            next_mod_idx: 0,
            pins_made: 0,
            wires_made: 0,
        };
        proof {
            assert(netlist@ =~= NetlistView::empty());
            netlist.lemma_epochs();
        }
        netlist
    }

    /// The live modules with their handles, by ascending slot.
    pub fn modules(&self) -> (items: Vec<(Handle, &Module)>)
        ensures
            items@.len() == self@.module_order().len(),
            forall|i: int|
                0 <= i < items@.len() ==> (#[trigger] items@[i]).0 == self@.module_order()[i]
                    && self@.modules.contains_key(ModuleIndex(items@[i].0)) && items@[i].1@
                    == self@.modules[ModuleIndex(items@[i].0)],
            is_slot_order(self@.module_order(), self@.module_handles()),
    {
        let handles = arena::module_handles(&self.modules);
        proof {
            assert(module_slots(self.modules).dom() =~= self@.module_handles());
            lemma_slot_order_is(handles@, self@.module_handles());
        }
        let mut items: Vec<(Handle, &Module)> = Vec::new();
        let mut i: usize = 0;
        while i < handles.len()
            invariant
                i <= handles.len(),
                handles@ == self@.module_order(),
                is_slot_order(handles@, self@.module_handles()),
                items@.len() == i,
                forall|k: int|
                    0 <= k < i ==> (#[trigger] items@[k]).0 == handles@[k]
                        && self@.modules.contains_key(ModuleIndex(items@[k].0)) && items@[k].1@
                        == self@.modules[ModuleIndex(items@[k].0)],
            decreases handles.len() - i,
        {
            let h = handles[i];
            proof {
                assert(handles@.contains(handles@[i as int]));
                assert(self@.module_handles().contains(h));
            }
            if let Some(module) = arena::get_module(&self.modules, h) {
                items.push((h, module));
            }
            i += 1;
        }
        items
    }

    /// The live pins with their handles, by ascending slot.
    pub fn pins(&self) -> (items: Vec<(Handle, &Pin)>)
        ensures
            items@.len() == self@.pin_order().len(),
            forall|i: int|
                0 <= i < items@.len() ==> (#[trigger] items@[i]).0 == self@.pin_order()[i]
                    && self@.pins.contains_key(PinIndex(items@[i].0)) && items@[i].1@
                    == self@.pins[PinIndex(items@[i].0)],
            is_slot_order(self@.pin_order(), self@.pin_handles()),
    {
        let handles = arena::pin_handles(&self.pins);
        proof {
            assert(pin_slots(self.pins).dom() =~= self@.pin_handles());
            lemma_slot_order_is(handles@, self@.pin_handles());
        }
        let mut items: Vec<(Handle, &Pin)> = Vec::new();
        let mut i: usize = 0;
        while i < handles.len()
            invariant
                i <= handles.len(),
                handles@ == self@.pin_order(),
                is_slot_order(handles@, self@.pin_handles()),
                items@.len() == i,
                forall|k: int|
                    0 <= k < i ==> (#[trigger] items@[k]).0 == handles@[k]
                        && self@.pins.contains_key(PinIndex(items@[k].0)) && items@[k].1@
                        == self@.pins[PinIndex(items@[k].0)],
            decreases handles.len() - i,
        {
            let h = handles[i];
            proof {
                assert(handles@.contains(handles@[i as int]));
                assert(self@.pin_handles().contains(h));
            }
            if let Some(pin) = arena::get_pin(&self.pins, h) {
                items.push((h, pin));
            }
            i += 1;
        }
        items
    }

    /// The live wires with their handles, by ascending slot: each wire is its
    /// input pin and then its output pin.
    pub fn wires(&self) -> (items: Vec<(Handle, &(PinIndex, PinIndex))>)
        ensures
            items@.len() == self@.wire_order().len(),
            forall|i: int|
                0 <= i < items@.len() ==> (#[trigger] items@[i]).0 == self@.wire_order()[i]
                    && self@.wires.contains_key(WireIndex(items@[i].0)) && *items@[i].1
                    == self@.wires[WireIndex(items@[i].0)],
            is_slot_order(self@.wire_order(), self@.wire_handles()),
    {
        let handles = arena::wire_handles(&self.wires);
        proof {
            assert(wire_slots(self.wires).dom() =~= self@.wire_handles());
            lemma_slot_order_is(handles@, self@.wire_handles());
        }
        let mut items: Vec<(Handle, &(PinIndex, PinIndex))> = Vec::new();
        let mut i: usize = 0;
        while i < handles.len()
            invariant
                i <= handles.len(),
                handles@ == self@.wire_order(),
                is_slot_order(handles@, self@.wire_handles()),
                items@.len() == i,
                forall|k: int|
                    0 <= k < i ==> (#[trigger] items@[k]).0 == handles@[k]
                        && self@.wires.contains_key(WireIndex(items@[k].0)) && *items@[k].1
                        == self@.wires[WireIndex(items@[k].0)],
            decreases handles.len() - i,
        {
            let h = handles[i];
            proof {
                assert(handles@.contains(handles@[i as int]));
                assert(self@.wire_handles().contains(h));
            }
            if let Some(wire) = arena::get_wire(&self.wires, h) {
                items.push((h, wire));
            }
            i += 1;
        }
        items
    }

    /// The module that `idx` resolves to, if it resolves.
    pub fn get_module(&self, idx: ModuleIndex) -> (found: Option<&Module>)
        ensures
            (match found {
                Some(module) => self@.modules.contains_key(idx) && module@ == self@.modules[idx],
                None => !self@.modules.contains_key(idx),
            }),
    {
        arena::get_module(&self.modules, idx.0)
    }

    /// The pin that `idx` resolves to, if it resolves.
    pub fn get_pin(&self, idx: PinIndex) -> (found: Option<&Pin>)
        ensures
            (match found {
                Some(pin) => self@.pins.contains_key(idx) && pin@ == self@.pins[idx],
                None => !self@.pins.contains_key(idx),
            }),
    {
        arena::get_pin(&self.pins, idx.0)
    }

    /// The wire that `idx` resolves to, if it resolves: its input pin, then
    /// its output pin.
    pub fn get_wire(&self, idx: WireIndex) -> (found: Option<&(PinIndex, PinIndex)>)
        ensures
            (match found {
                Some(wire) => self@.wires.contains_key(idx) && *wire == self@.wires[idx],
                None => !self@.wires.contains_key(idx),
            }),
    {
        arena::get_wire(&self.wires, idx.0)
    }

    /// The id that the next module gets.
    pub fn next_module_id(&self) -> (id: i32)
        ensures
            id == self@.next_module_id,
    {
        self.next_mod_idx
    }

    /// The number of pins that were ever added.
    pub fn pins_made(&self) -> (count: u64)
        ensures
            count == self@.pins_made,
    {
        self.pins_made
    }

    /// The number of wires that were ever added.
    pub fn wires_made(&self) -> (count: u64)
        ensures
            count == self@.wires_made,
    {
        self.wires_made
    }

    /// Adds a module without pins and returns its handle.
    ///
    /// The module gets the next id of the netlist's counter, which is never
    /// given out again.
    pub fn add_module(&mut self, name: String) -> (idx: ModuleIndex)
        requires
            old(self).wf(),
            old(self)@.next_module_id < i32::MAX,
        ensures
            final(self).wf(),
            !old(self)@.modules.contains_key(idx),
            idx.0.generation == old(self)@.module_epoch(),
            final(self)@ == old(self)@.with_module(idx, name@),
    {
        let id = self.next_mod_idx;
        self.next_mod_idx += 1;
        let idx = ModuleIndex(arena::insert_module(&mut self.modules, Module::new(name, id)));
        proof {
            old(self).lemma_epochs();
            assert(self@ =~= old(self)@.with_module(idx, name@));
            old(self)@.lemma_with_module_wf(idx, name@);
            assert(module_slots(self.modules).dom() =~= module_slots(
                old(self).modules,
            ).dom().insert(idx.0));
        }
        idx
    }

    /// Adds an unlinked pin to module `idx` and returns its handle. The pin
    /// goes to the end of the module's inputs or outputs, as `direction` says.
    /// Gives `None`, and changes nothing, where `idx` does not resolve.
    pub fn add_pin(
        &mut self,
        idx: ModuleIndex,
        name: String,
        kind: PinKind,
        direction: InterconnectDirection,
    ) -> (added: Option<PinIndex>)
        requires
            old(self).wf(),
            old(self)@.pins_made < u64::MAX,
        ensures
            final(self).wf(),
            (match added {
                Some(pin) => old(self)@.modules.contains_key(idx) && !old(self)@.pins.contains_key(
                    pin,
                ) && pin.0.generation == old(self)@.pin_epoch() && final(self)@ == old(
                    self,
                )@.with_pin(pin, idx, name@, kind, direction),
                None => !old(self)@.modules.contains_key(idx) && final(self)@ == old(self)@,
            }),
    {
        match arena::get_module_mut(&mut self.modules, idx.0) {
            Some(module) => {
                let pin = PinIndex(
                    arena::insert_pin(&mut self.pins, Pin::new(name, kind, direction, idx)),
                );
                module.add_pin(direction, pin);
                self.pins_made += 1;
                proof {
                    old(self).lemma_epochs();
                    assert(pin_slots(self.pins).dom() =~= pin_slots(old(self).pins).dom().insert(
                        pin.0,
                    ));
                    assert(module_slots(self.modules).dom() =~= module_slots(
                        old(self).modules,
                    ).dom());
                    assert(old(self)@.pin_slot_free(pin)) by {
                        assert forall|q: PinIndex| #[trigger]
                            old(self)@.pins.contains_key(q) implies q.0.slot != pin.0.slot by {
                            assert(pin_slots(old(self).pins).dom().contains(q.0));
                        }
                    }
                    assert(self@ =~= old(self)@.with_pin(pin, idx, name@, kind, direction));
                    old(self)@.lemma_with_pin_wf(pin, idx, name@, kind, direction);
                }
                Some(pin)
            },
            None => {
                proof {
                    assert(self@ =~= old(self)@);
                }
                None
            },
        }
    }

    /// Removes module `idx` and, with it, every pin that it lists: first its
    /// inputs, then its outputs, each as [`Netlist::remove_pin`] removes a
    /// pin. Gives `None`, and changes nothing, where `idx` does not resolve.
    pub fn remove_module(&mut self, idx: ModuleIndex) -> (done: Option<()>)
        requires
            old(self).wf(),
        ensures
            final(self).wf(),
            done.is_some() == old(self)@.modules.contains_key(idx),
            done.is_some() ==> final(self)@ == old(self)@.without_module(idx),
            done.is_none() ==> final(self)@ == old(self)@,
            !final(self)@.modules.contains_key(idx),
            done.is_some() ==> final(self)@.retired_module(idx),
            forall|p: PinIndex| #[trigger]
                old(self)@.modules[idx].owns(p) && done.is_some()
                    ==> final(self)@.retired_pin(p),
    {
        let ghost before = old(self)@;
        proof {
            if module_slots(self.modules).dom().contains(idx.0) {
                assert(module_slots(self.modules).len() != 0);
            }
        }
        let m = match arena::remove_module(&mut self.modules, idx.0) {
            Some(m) => m,
            None => {
                proof {
                    assert(module_slots(self.modules) =~= module_slots(old(self).modules));
                    assert(self@ =~= before);
                }
                return None;
            },
        };
        proof {
            assert(module_slots(self.modules).dom() =~= module_slots(
                old(self).modules,
            ).dom().remove(idx.0));
        }
        let ghost base = before.orphaned(idx);
        let inputs = m.inputs();
        let outputs = m.outputs();
        proof {
            assert(module_slots(old(self).modules).contains_key(idx.0));
            assert(before.modules.contains_key(idx));
            assert(m@ == before.modules[idx]);
            assert(self@ =~= base);
            before.lemma_orphaned_core_wf(idx);
            base.lemma_without_no_pins();
            assert(inputs@.take(0).to_set() =~= Set::<PinIndex>::empty());
        }
        let mut i: usize = 0;
        while i < inputs.len()
            invariant
                i <= inputs.len(),
                before.wf(),
                before.modules.contains_key(idx),
                inputs@ == before.modules[idx].inputs,
                base == before.orphaned(idx),
                self@ == base.without_pins(inputs@.take(i as int).to_set()),
                self@.core_wf(),
                self.counters_agree(),
            decreases inputs.len() - i,
        {
            let ghost p = inputs@[i as int];
            let ghost done = inputs@.take(i as int).to_set();
            proof {
                assert(before.owned_as(idx, inputs@[i as int], InterconnectDirection::Input));
                assert(self@.pins.contains_key(p));
            }
            self.detach_pin(inputs[i]);
            proof {
                base.lemma_without_pins_twice(done, set![p]);
                assert(inputs@.take(i + 1) == inputs@.take(i as int).push(p));
                assert(inputs@.take(i + 1).to_set() =~= done.union(set![p])) by {
                    assert forall|x: PinIndex| inputs@.take(i + 1).contains(x) <==> (
                    inputs@.take(i as int).contains(x) || x == p) by {
                        lemma_push_contains(inputs@.take(i as int), p, x);
                    }
                }
            }
            i += 1;
        }
        let ghost all_inputs = inputs@.to_set();
        proof {
            assert(inputs@.take(i as int) == inputs@);
            assert(all_inputs.union(outputs@.take(0).to_set()) =~= all_inputs);
        }
        let mut j: usize = 0;
        while j < outputs.len()
            invariant
                j <= outputs.len(),
                before.wf(),
                before.modules.contains_key(idx),
                inputs@ == before.modules[idx].inputs,
                outputs@ == before.modules[idx].outputs,
                all_inputs == inputs@.to_set(),
                base == before.orphaned(idx),
                self@ == base.without_pins(all_inputs.union(outputs@.take(j as int).to_set())),
                self@.core_wf(),
                self.counters_agree(),
            decreases outputs.len() - j,
        {
            let ghost p = outputs@[j as int];
            let ghost done = all_inputs.union(outputs@.take(j as int).to_set());
            proof {
                assert(before.owned_as(idx, outputs@[j as int], InterconnectDirection::Output));
                if inputs@.contains(p) {
                    let k = choose|k: int| 0 <= k < inputs@.len() && inputs@[k] == p;
                    assert(before.owned_as(idx, inputs@[k], InterconnectDirection::Input));
                }
                assert(self@.pins.contains_key(p));
            }
            self.detach_pin(outputs[j]);
            proof {
                base.lemma_without_pins_twice(done, set![p]);
                assert(outputs@.take(j + 1) == outputs@.take(j as int).push(p));
                assert(all_inputs.union(outputs@.take(j + 1).to_set()) =~= done.union(set![p])) by {
                    assert forall|x: PinIndex| outputs@.take(j + 1).contains(x) <==> (
                    outputs@.take(j as int).contains(x) || x == p) by {
                        lemma_push_contains(outputs@.take(j as int), p, x);
                    }
                }
            }
            j += 1;
        }
        proof {
            assert(outputs@.take(j as int) == outputs@);
            let listed = before.modules[idx].pins();
            assert(all_inputs.union(outputs@.to_set()) =~= listed.to_set()) by {
                assert forall|x: PinIndex| listed.contains(x) <==> (inputs@.contains(x)
                    || outputs@.contains(x)) by {
                    lemma_concat_contains(inputs@, outputs@, x);
                }
            }
            before.lemma_without_module_wf(idx);
            law_removed_module_takes_its_pins(before, idx);
            assert forall|p: PinIndex| #[trigger] before.modules[idx].owns(p) implies before.without_module(
                idx,
            ).retired_pin(p) by {
                law_removed_handles_are_retired(before, idx, p, WireIndex(p.0));
            }
        }
        Some(())
    }

    /// Wires pin `a_idx` to pin `b_idx`, in either order, and returns the
    /// handle of the new wire.
    ///
    /// The connection is refused, and nothing changes, for the first of these
    /// that holds: the two handles are equal; one of them does not resolve;
    /// the two pins differ in kind; they are not one input and one output; the
    /// input has a driver already. Otherwise the output becomes the driver of
    /// the input, the input is appended to the inputs that the output drives,
    /// and the wire records the input and then the output.
    pub fn add_wire(&mut self, a_idx: PinIndex, b_idx: PinIndex) -> (wired: Result<
        WireIndex,
        ConnectionError,
    >)
        requires
            old(self).wf(),
            old(self)@.wires_made < u64::MAX,
        ensures
            final(self).wf(),
            (match wired {
                Ok(wire) => old(self)@.wire_error(a_idx, b_idx).is_none()
                    && !old(self)@.wires.contains_key(wire) && wire.0.generation == old(
                    self,
                )@.wire_epoch() && final(self)@ == old(self)@.connected(
                    wire,
                    old(self)@.wire_ends(a_idx, b_idx).0,
                    old(self)@.wire_ends(a_idx, b_idx).1,
                ),
                Err(error) => old(self)@.wire_error(a_idx, b_idx) == Some(error) && final(self)@
                    == old(self)@,
            }),
            a_idx == b_idx ==> wired matches Err(ConnectionError::IdenticalPins),
            wired matches Ok(wire) ==> final(self)@.wires[wire] == old(self)@.wire_ends(
                a_idx,
                b_idx,
            ) && final(self)@.pins[final(self)@.wires[wire].0].driver() == Some(
                final(self)@.wires[wire].1,
            ) && final(self)@.pins[final(self)@.wires[wire].1].driven().contains(
                final(self)@.wires[wire].0,
            ),
    {
        if a_idx == b_idx {
            return Err(ConnectionError::IdenticalPins);
        }
        let (a, b) = arena::get_two_pins_mut(&mut self.pins, a_idx.0, b_idx.0);
        let a = match a {
            Some(a) => a,
            None => {
                proof {
                    assert(pin_slots(self.pins) =~= pin_slots(old(self).pins));
                    assert(self@ =~= old(self)@);
                }
                return Err(ConnectionError::BadIndex(a_idx));
            },
        };
        let b = match b {
            Some(b) => b,
            None => {
                proof {
                    assert(pin_slots(self.pins) =~= pin_slots(old(self).pins));
                    assert(self@ =~= old(self)@);
                }
                return Err(ConnectionError::BadIndex(b_idx));
            },
        };
        if !a.kind().compatible(b.kind()) {
            let error = ConnectionError::Compatibility(a.kind(), b.kind());
            proof {
                assert(pin_slots(self.pins) =~= pin_slots(old(self).pins));
                assert(self@ =~= old(self)@);
            }
            return Err(error);
        }
        let ((input, input_idx), (output, output_idx)) = if a.is_input() && b.is_output() {
            ((a, a_idx), (b, b_idx))
        } else if b.is_input() && a.is_output() {
            ((b, b_idx), (a, a_idx))
        } else {
            proof {
                assert(pin_slots(self.pins) =~= pin_slots(old(self).pins));
                assert(self@ =~= old(self)@);
            }
            return Err(ConnectionError::Direction);
        };
        if input.driver().is_some() {
            proof {
                assert(pin_slots(self.pins) =~= pin_slots(old(self).pins));
                assert(self@ =~= old(self)@);
            }
            return Err(ConnectionError::InputDriven);
        }
        input.set_driver(Some(output_idx));
        output.add_driven(input_idx);
        let wire = WireIndex(arena::insert_wire(&mut self.wires, (input_idx, output_idx)));
        self.wires_made += 1;
        proof {
            old(self).lemma_epochs();
            assert(wire_slots(self.wires).dom() =~= wire_slots(old(self).wires).dom().insert(
                wire.0,
            ));
            assert(pin_slots(self.pins).dom() =~= pin_slots(old(self).pins).dom());
            assert(self@ =~= old(self)@.connected(wire, input_idx, output_idx));
            old(self)@.lemma_connected_wf(wire, input_idx, output_idx);
            law_wire_links_both_ends(old(self)@, wire, a_idx, b_idx);
        }
        Ok(wire)
    }

    /// Takes pin `idx` out of a netlist that may be in the middle of losing a
    /// module: out of its parent's list if the parent is still there, out of
    /// the link state of its partners, and with it every wire that ends at it.
    fn detach_pin(&mut self, idx: PinIndex) -> (done: Option<()>)
        requires
            old(self)@.core_wf(),
            old(self).counters_agree(),
        ensures
            final(self)@.core_wf(),
            final(self).counters_agree(),
            done.is_some() == old(self)@.pins.contains_key(idx),
            done.is_some() ==> final(self)@ == old(self)@.without_pins(set![idx]),
            done.is_none() ==> final(self)@ == old(self)@,
    {
        let ghost before = old(self)@;
        let ghost gone = set![idx];
        proof {
            if pin_slots(self.pins).dom().contains(idx.0) {
                assert(pin_slots(self.pins).len() != 0);
            }
        }
        let p = match arena::remove_pin(&mut self.pins, idx.0) {
            Some(p) => p,
            None => {
                proof {
                    assert(pin_slots(self.pins) =~= pin_slots(old(self).pins));
                    assert(self@ =~= before);
                }
                return None;
            },
        };
        proof {
            assert(pin_slots(self.pins).dom() =~= pin_slots(old(self).pins).dom().remove(idx.0));
        }
        proof {
            assert(pin_slots(old(self).pins).contains_key(idx.0));
            assert(before.pins.contains_key(idx));
            assert(p@ == before.pins[idx]);
            assert(before.mirrored(idx));
            before.lemma_without_pin_is_local(idx);
        }
        // The parent no longer lists the pin.
        match arena::get_module_mut(&mut self.modules, p.parent().0) {
            Some(parent) => parent.remove_pin(p.direction(), idx),
            None => {},
        }
        proof {
            assert(module_slots(self.modules).dom() =~= module_slots(old(self).modules).dom());
            assert(self@.modules =~= before.without_pins(gone).modules);
        }
        let ghost pins_left = pin_slots(self.pins).dom();
        // The partners no longer link to the pin.
        match p.interconnect() {
            Interconnect::Input { connection } => {
                if let Some(driver_idx) = connection {
                    proof {
                        assert(before.drives(*driver_idx, idx));
                    }
                    if let Some(driver) = arena::get_pin_mut(&mut self.pins, driver_idx.0) {
                        driver.remove_driven(idx);
                    }
                }
                proof {
                    assert(pin_slots(self.pins).dom() =~= pins_left);
                    assert(self@.pins =~= before.without_pins(gone).pins);
                }
            },
            Interconnect::Output { connections } => {
                let mut i: usize = 0;
                while i < connections.len()
                    invariant
                        i <= connections.len(),
                        before == old(self)@,
                        before.core_wf(),
                        before.pins.contains_key(idx),
                        before.pins[idx].interconnect == (InterconnectView::Output {
                            connections: connections@,
                        }),
                        gone == set![idx],
                        self.counters_agree(),
                        self@.modules == before.without_pins(gone).modules,
                        self@.wires == before.wires,
                        self@.next_module_id == before.next_module_id,
                        self@.pins_made == before.pins_made,
                        self@.wires_made == before.wires_made,
                        self@.pins.dom() == before.pins.dom().remove(idx),
                        forall|q: PinIndex| #[trigger]
                            self@.pins.contains_key(q) ==> self@.pins[q] == if connections@.take(
                                i as int,
                            ).contains(q) {
                                before.pins[q].without(gone)
                            } else {
                                before.pins[q]
                            },
                    decreases connections.len() - i,
                {
                    let ghost q = connections@[i as int];
                    let ghost entered = self@;
                    let ghost entered_pins = pin_slots(self.pins).dom();
                    proof {
                        assert(before.mirrored(idx));
                        assert(before.driven_by(q, idx));
                        before.lemma_without_pin_is_local(idx);
                        assert(before.pins[idx].interconnect.links_to(q));
                        assert(q != idx);
                        assert(entered.pins.contains_key(q));
                    }
                    if let Some(pin) = arena::get_pin_mut(&mut self.pins, connections[i].0) {
                        pin.set_driver(None);
                    }
                    proof {
                        let done = connections@.take(i as int);
                        let grown = connections@.take(i + 1);
                        assert(grown == done.push(q));
                        assert(grown[i as int] == q);
                        assert(pin_slots(self.pins).dom() =~= entered_pins);
                        assert(self@.pins.dom() =~= entered.pins.dom());
                        assert forall|r: PinIndex| #[trigger] self@.pins.contains_key(r) implies self@.pins[r]
                            == if grown.contains(r) {
                            before.pins[r].without(gone)
                        } else {
                            before.pins[r]
                        } by {
                            assert(entered.pins.contains_key(r));
                            if r == q {
                            } else {
                                assert(self@.pins[r] == entered.pins[r]);
                                if done.contains(r) {
                                    let k = choose|k: int| 0 <= k < done.len() && done[k] == r;
                                    assert(grown[k] == r);
                                }
                                if grown.contains(r) {
                                    let k = choose|k: int| 0 <= k < grown.len() && grown[k] == r;
                                    assert(done[k] == r);
                                }
                            }
                        }
                        assert(self@.modules =~= entered.modules);
                        assert(self@.wires =~= entered.wires);
                    }
                    i += 1;
                }
                proof {
                    assert(connections@.take(i as int) == connections@);
                    assert forall|q: PinIndex| #[trigger] self@.pins.contains_key(q) implies self@.pins[q]
                        == before.pins[q].without(gone) by {
                        assert(before.pins.contains_key(q) && q != idx);
                    }
                    assert(self@.pins =~= before.without_pins(gone).pins);
                }
            },
        }
        // No wire ends at the pin any longer.
        let ghost wires_before = wire_slots(self.wires).dom();
        arena::retain_wires_avoiding(&mut self.wires, idx);
        proof {
            lemma_len_subset(wire_slots(self.wires).dom(), wires_before);
            assert(self@.wires =~= before.without_pins(gone).wires);
            assert(self@ =~= before.without_pins(gone));
            before.lemma_without_pins_core_wf(gone);
        }
        Some(())
    }

    /// Removes pin `idx`: the pin leaves its parent's list, its driver no
    /// longer lists it, every input that it drives loses its driver, and every
    /// wire that ends at it is removed. Gives `None`, and changes nothing,
    /// where `idx` does not resolve.
    pub fn remove_pin(&mut self, idx: PinIndex) -> (done: Option<()>)
        requires
            old(self).wf(),
        ensures
            final(self).wf(),
            done.is_some() == old(self)@.pins.contains_key(idx),
            done.is_some() ==> final(self)@ == old(self)@.without_pins(set![idx]),
            done.is_none() ==> final(self)@ == old(self)@,
            !final(self)@.pins.contains_key(idx),
            done.is_some() ==> final(self)@.retired_pin(idx),
            forall|q: PinIndex| #[trigger]
                final(self)@.pins.contains_key(q) ==> !final(self)@.pins[q].interconnect.links_to(
                    idx,
                ),
            forall|w: WireIndex| #[trigger]
                final(self)@.wires.contains_key(w) ==> final(self)@.wires[w].0 != idx
                    && final(self)@.wires[w].1 != idx,
    {
        let done = self.detach_pin(idx);
        proof {
            old(self)@.lemma_without_pins_wf(set![idx]);
            if done.is_some() {
                law_removed_pins_leave_no_trace(old(self)@, set![idx]);
                law_removed_handles_are_retired(
                    old(self)@,
                    ModuleIndex(idx.0),
                    idx,
                    WireIndex(idx.0),
                );
            } else {
                assert forall|q: PinIndex| #[trigger] self@.pins.contains_key(q) implies !self@.pins[q].interconnect.links_to(
                    idx,
                ) by {
                    assert(self@.mirrored(q));
                    match self@.pins[q].interconnect {
                        InterconnectView::Input { connection: Some(o) } => {
                            assert(self@.drives(o, q));
                        },
                        InterconnectView::Input { connection: None } => {},
                        InterconnectView::Output { connections } => {
                            if connections.contains(idx) {
                                let j = choose|j: int|
                                    0 <= j < connections.len() && connections[j] == idx;
                                assert(self@.driven_by(connections[j], q));
                            }
                        },
                    }
                }
                assert forall|w: WireIndex| #[trigger] self@.wires.contains_key(w) implies self@.wires[w].0
                    != idx && self@.wires[w].1 != idx by {
                    assert(self@.driven_by(self@.wires[w].0, self@.wires[w].1));
                    assert(self@.mirrored(self@.wires[w].0));
                }
            }
        }
        done
    }

    /// Removes wire `idx` and the link that it records: the input loses its
    /// driver, and the output no longer lists the input. Gives `None`, and
    /// changes nothing, where `idx` does not resolve.
    pub fn remove_wire(&mut self, idx: WireIndex) -> (done: Option<()>)
        requires
            old(self).wf(),
        ensures
            final(self).wf(),
            done.is_some() == old(self)@.wires.contains_key(idx),
            done.is_some() ==> final(self)@ == old(self)@.disconnected(idx),
            done.is_none() ==> final(self)@ == old(self)@,
            done.is_some() ==> final(self)@.retired_wire(idx),
    {
        proof {
            if wire_slots(self.wires).dom().contains(idx.0) {
                assert(wire_slots(self.wires).len() != 0);
            }
        }
        let (a_idx, b_idx) = match arena::remove_wire(&mut self.wires, idx.0) {
            Some(ends) => ends,
            None => {
                proof {
                    assert(wire_slots(self.wires) =~= wire_slots(old(self).wires));
                    assert(self@ =~= old(self)@);
                }
                return None;
            },
        };
        proof {
            assert(wire_slots(self.wires).dom() =~= wire_slots(old(self).wires).dom().remove(
                idx.0,
            ));
            assert(old(self)@.wires.contains_key(idx));
            assert(old(self)@.driven_by(a_idx, b_idx));
            assert(old(self)@.mirrored(a_idx));
        }
        let (a, b) = arena::get_two_pins_mut(&mut self.pins, a_idx.0, b_idx.0);
        let a = a.expect("Wires should get deleted before pins do");
        let b = b.expect("Wires should get deleted before pins do");
        let ((input, input_idx), (output, _)) = if a.is_input() && b.is_output() {
            ((a, a_idx), (b, b_idx))
        } else {
            ((b, b_idx), (a, a_idx))
        };
        input.set_driver(None);
        output.remove_driven(input_idx);
        proof {
            assert(pin_slots(self.pins).dom() =~= pin_slots(old(self).pins).dom());
            assert(self@ =~= old(self)@.disconnected(idx));
            old(self)@.lemma_disconnected_wf(idx);
            law_removed_handles_are_retired(
                old(self)@,
                ModuleIndex(idx.0),
                PinIndex(idx.0),
                idx,
            );
        }
        Some(())
    }

    /// Puts module `idx` at `(x, y)`, two coordinates given by their bit
    /// patterns. Gives `None`, and changes nothing, where `idx` does not
    /// resolve.
    pub fn set_module_position(&mut self, idx: ModuleIndex, x: u32, y: u32) -> (done: Option<()>)
        requires
            old(self).wf(),
        ensures
            final(self).wf(),
            done.is_some() == old(self)@.modules.contains_key(idx),
            done.is_some() ==> final(self)@ == old(self)@.moved(idx, (x, y)),
            done.is_none() ==> final(self)@ == old(self)@,
    {
        match arena::get_module_mut(&mut self.modules, idx.0) {
            Some(module) => {
                module.set_position((x, y));
                proof {
                    assert(module_slots(self.modules).dom() =~= module_slots(
                        old(self).modules,
                    ).dom());
                    assert(self@ =~= old(self)@.moved(idx, (x, y)));
                    old(self)@.lemma_moved_wf(idx, (x, y));
                }
                Some(())
            },
            None => {
                proof {
                    assert(module_slots(self.modules) =~= module_slots(old(self).modules));
                    assert(self@ =~= old(self)@);
                }
                None
            },
        }
    }
}

} // verus!
