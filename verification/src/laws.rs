//! What follows from the model of the netlist operations, stated of every
//! netlist and every handle.

use vstd::prelude::*;
use vstd::set_lib::lemma_len_subset;
use crate::error::ConnectionError;
use crate::handle::{ModuleIndex, PinIndex, WireIndex};
use crate::kinds::{InterconnectDirection, PinKind};
use crate::model::NetlistView;
use crate::pin::InterconnectView;
use crate::pinlist::{
    lemma_concat_contains,
    lemma_prune_contains,
    lemma_prune_disjoint,
    lemma_prune_push,
};

verus! {

/// In a consistent netlist, every module lists live pins of its own, every
/// link is held by both of its ends, no input has two drivers or two wires,
/// and the wires are exactly the links: each wire goes from a live output to
/// the live input of its kind that it drives, and each driven input has a wire.
pub proof fn law_consistency(net: NetlistView)
    requires
        net.wf(),
    ensures
        forall|m: ModuleIndex, p: PinIndex|
            #![trigger net.modules[m].owns(p)]
            net.modules.contains_key(m) && net.modules[m].owns(p) ==> net.pins.contains_key(p)
                && net.pins[p].parent == m,
        forall|p: PinIndex| #[trigger]
            net.pins.contains_key(p) ==> net.modules.contains_key(net.pins[p].parent)
                && net.modules[net.pins[p].parent].owns(p),
        forall|p: PinIndex, o: PinIndex|
            #![trigger net.pins[p].interconnect.links_to(o)]
            net.pins.contains_key(p) && net.pins[p].interconnect.links_to(o)
                ==> net.pins.contains_key(o) && net.pins[o].interconnect.links_to(p)
                && net.pins[o].is_input() != net.pins[p].is_input() && net.pins[o].kind
                == net.pins[p].kind,
        forall|w: WireIndex| #[trigger]
            net.wires.contains_key(w) ==> net.pins.contains_key(net.wires[w].0)
                && net.pins.contains_key(net.wires[w].1) && net.pins[net.wires[w].0].driver()
                == Some(net.wires[w].1) && net.pins[net.wires[w].1].is_output(),
        forall|w: WireIndex, x: WireIndex|
            #![trigger net.wires.contains_key(w), net.wires.contains_key(x)]
            net.wires.contains_key(w) && net.wires.contains_key(x) && net.wires[w].0
                == net.wires[x].0 ==> w == x,
        forall|p: PinIndex| #[trigger]
            net.pins.contains_key(p) && net.pins[p].driver().is_some() ==> exists|w: WireIndex|
                net.wires.contains_key(w) && net.wires[w] == (p, net.pins[p].driver().unwrap()),
{
    assert forall|m: ModuleIndex, p: PinIndex|
        #![trigger net.modules[m].owns(p)]
        net.modules.contains_key(m) && net.modules[m].owns(p) implies net.pins.contains_key(p)
        && net.pins[p].parent == m by {
        let module = net.modules[m];
        assert(net.owns_lists(m));
        if module.inputs.contains(p) {
            let i = choose|i: int| 0 <= i < module.inputs.len() && module.inputs[i] == p;
            assert(net.owned_as(m, module.inputs[i], InterconnectDirection::Input));
        } else {
            let i = choose|i: int| 0 <= i < module.outputs.len() && module.outputs[i] == p;
            assert(net.owned_as(m, module.outputs[i], InterconnectDirection::Output));
        }
    }
    assert forall|p: PinIndex| #[trigger] net.pins.contains_key(p) implies net.modules.contains_key(
        net.pins[p].parent,
    ) && net.modules[net.pins[p].parent].owns(p) by {
        assert(net.listed(p));
    }
    assert forall|p: PinIndex, o: PinIndex|
        #![trigger net.pins[p].interconnect.links_to(o)]
        net.pins.contains_key(p) && net.pins[p].interconnect.links_to(o) implies net.pins.contains_key(
        o,
    ) && net.pins[o].interconnect.links_to(p) && net.pins[o].is_input() != net.pins[p].is_input()
        && net.pins[o].kind == net.pins[p].kind by {
        assert(net.mirrored(p));
        match net.pins[p].interconnect {
            InterconnectView::Input { connection } => {
                assert(net.drives(o, p));
            },
            InterconnectView::Output { connections } => {
                let j = choose|j: int| 0 <= j < connections.len() && connections[j] == o;
                assert(net.driven_by(connections[j], p));
                assert(net.mirrored(o));
                assert(net.drives(p, o));
            },
        }
    }
    assert forall|w: WireIndex| #[trigger] net.wires.contains_key(w) implies net.pins.contains_key(
        net.wires[w].0,
    ) && net.pins.contains_key(net.wires[w].1) && net.pins[net.wires[w].0].driver() == Some(
        net.wires[w].1,
    ) && net.pins[net.wires[w].1].is_output() by {
        assert(net.driven_by(net.wires[w].0, net.wires[w].1));
        assert(net.mirrored(net.wires[w].0));
        assert(net.drives(net.wires[w].1, net.wires[w].0));
    }
    assert forall|p: PinIndex| #[trigger]
        net.pins.contains_key(p) && net.pins[p].driver().is_some() implies exists|w: WireIndex|
        net.wires.contains_key(w) && net.wires[w] == (p, net.pins[p].driver().unwrap()) by {
        assert(net.recorded(p));
        let w = choose|w: WireIndex| #[trigger] net.records(w, p);
        assert(net.driven_by(net.wires[w].0, net.wires[w].1));
        assert(net.wires.contains_key(w) && net.wires[w] == (p, net.pins[p].driver().unwrap()));
    }
}

/// A wire from a pin to itself is refused as `IdenticalPins`, whether or not
/// the handle resolves.
pub proof fn law_self_wire_is_refused(net: NetlistView, a: PinIndex)
    ensures
        net.wire_error(a, a) == Some(ConnectionError::IdenticalPins),
{
}

/// A wire between two live pins of different kinds is refused as
/// `Compatibility`, with the two kinds in the order of the two handles,
/// whatever the directions of the pins are.
pub proof fn law_kinds_must_match(net: NetlistView, a: PinIndex, b: PinIndex)
    requires
        a != b,
        net.pins.contains_key(a),
        net.pins.contains_key(b),
        net.pins[a].kind != net.pins[b].kind,
    ensures
        net.wire_error(a, b) == Some(
            ConnectionError::Compatibility(net.pins[a].kind, net.pins[b].kind),
        ),
{
}

/// A handle that does not resolve makes the connection fail with `BadIndex`,
/// unless both handles are equal.
pub proof fn law_stale_handle_is_refused(net: NetlistView, a: PinIndex, b: PinIndex)
    requires
        net.wf(),
        a != b,
        !net.pins.contains_key(a) || !net.pins.contains_key(b),
    ensures
        net.wire_error(a, b) == Some(ConnectionError::BadIndex(net.unresolved(a, b))),
        net.unresolved(a, b) == a || net.unresolved(a, b) == b,
        !(net.pins.contains_key(a) && net.pins.contains_key(b)),
        a.0.slot != b.0.slot ==> !net.pins.contains_key(net.unresolved(a, b)),
{
}

/// An accepted wire links its two ends on both sides, and records the input
/// and then the output, in whichever order the two pins were given.
pub proof fn law_wire_links_both_ends(net: NetlistView, wire: WireIndex, a: PinIndex, b: PinIndex)
    requires
        net.wire_error(a, b).is_none(),
    ensures
        ({
            let (input, output) = net.wire_ends(a, b);
            let after = net.connected(wire, input, output);
            &&& (input, output) == (a, b) || (input, output) == (b, a)
            &&& net.pins[input].is_input() && net.pins[output].is_output()
            &&& after.pins[input].driver() == Some(output)
            &&& after.pins[output].driven().contains(input)
            &&& after.wires.contains_key(wire)
            &&& after.wires[wire] == (input, output)
        }),
{
    let (input, output) = net.wire_ends(a, b);
    let fanout = net.pins[output].driven();
    assert(fanout.push(input)[fanout.len() as int] == input);
}

/// Removing a wire that was just made undoes the connection: the input is
/// undriven again, the output drives what it drove before, and all that is
/// left of the wire is that it was counted.
pub proof fn law_remove_wire_undoes_add_wire(
    net: NetlistView,
    wire: WireIndex,
    a: PinIndex,
    b: PinIndex,
)
    requires
        net.wf(),
        net.wire_error(a, b).is_none(),
        !net.wires.contains_key(wire),
        net.wires_made < u64::MAX,
    ensures
        net.connected(wire, net.wire_ends(a, b).0, net.wire_ends(a, b).1).disconnected(wire) == (
        NetlistView { wires_made: (net.wires_made + 1) as u64, ..net }),
{
    let (input, output) = net.wire_ends(a, b);
    let made = net.connected(wire, input, output);
    let back = made.disconnected(wire);
    let fanout = net.pins[output].driven();
    assert(net.mirrored(output));
    assert forall|j: int| 0 <= j < fanout.len() implies #[trigger] fanout[j] != input by {
        assert(net.driven_by(fanout[j], output));
    }
    lemma_prune_push(fanout, input, set![input]);
    lemma_prune_disjoint(fanout, set![input]);
    assert(back.pins =~= net.pins);
    assert(back.wires =~= net.wires);
}

/// Once an input is wired to an output, a wire from any live output of its
/// kind to that input is refused as `InputDriven`, in either order of the two
/// handles.
pub proof fn law_driven_input_is_refused(
    net: NetlistView,
    wire: WireIndex,
    output: PinIndex,
    input: PinIndex,
    other: PinIndex,
)
    requires
        net.wire_error(output, input).is_none(),
        net.pins[output].is_output(),
        net.connected(wire, input, output).pins.contains_key(other),
        net.connected(wire, input, output).pins[other].is_output(),
        net.connected(wire, input, output).pins[other].kind == net.connected(
            wire,
            input,
            output,
        ).pins[input].kind,
    ensures
        net.wire_ends(output, input) == (input, output),
        net.connected(wire, input, output).wire_error(other, input) == Some(
            ConnectionError::InputDriven,
        ),
        net.connected(wire, input, output).wire_error(input, other) == Some(
            ConnectionError::InputDriven,
        ),
{
}

/// After pins are taken out, none of them resolves, no module lists one, no
/// pin is linked to one, and no wire ends at one.
pub proof fn law_removed_pins_leave_no_trace(net: NetlistView, gone: Set<PinIndex>)
    ensures
        forall|p: PinIndex| gone.contains(p) ==> !net.without_pins(gone).pins.contains_key(p),
        forall|m: ModuleIndex, p: PinIndex|
            #![trigger net.without_pins(gone).modules[m].owns(p)]
            net.without_pins(gone).modules.contains_key(m) && gone.contains(p)
                ==> !net.without_pins(gone).modules[m].owns(p),
        forall|q: PinIndex, p: PinIndex|
            #![trigger net.without_pins(gone).pins[q].interconnect.links_to(p)]
            net.without_pins(gone).pins.contains_key(q) && gone.contains(p) ==> !net.without_pins(
                gone,
            ).pins[q].interconnect.links_to(p),
        forall|w: WireIndex| #[trigger]
            net.without_pins(gone).wires.contains_key(w) ==> !gone.contains(
                net.without_pins(gone).wires[w].0,
            ) && !gone.contains(net.without_pins(gone).wires[w].1),
{
    let after = net.without_pins(gone);
    assert forall|m: ModuleIndex, p: PinIndex|
        #![trigger after.modules[m].owns(p)]
        after.modules.contains_key(m) && gone.contains(p) implies !after.modules[m].owns(p) by {
        lemma_prune_contains(net.modules[m].inputs, gone, p);
        lemma_prune_contains(net.modules[m].outputs, gone, p);
    }
    assert forall|q: PinIndex, p: PinIndex|
        #![trigger after.pins[q].interconnect.links_to(p)]
        after.pins.contains_key(q) && gone.contains(p) implies !after.pins[q].interconnect.links_to(
        p,
    ) by {
        match net.pins[q].interconnect {
            InterconnectView::Input { connection } => {},
            InterconnectView::Output { connections } => {
                lemma_prune_contains(connections, gone, p);
            },
        }
    }
}

/// Taking pins out leaves every other pin its name, kind, parent and
/// direction, and every link to a pin that stays. A pin with no link to a pin
/// that left is the same as before, and so is a wire with no end at one.
pub proof fn law_removed_pins_spare_the_rest(net: NetlistView, gone: Set<PinIndex>)
    ensures
        net.without_pins(gone).next_module_id == net.next_module_id,
        forall|q: PinIndex| #[trigger]
            net.pins.contains_key(q) && !gone.contains(q) ==> {
                let after = net.without_pins(gone).pins[q];
                &&& net.without_pins(gone).pins.contains_key(q)
                &&& after.name == net.pins[q].name
                &&& after.kind == net.pins[q].kind
                &&& after.parent == net.pins[q].parent
                &&& after.interconnect.direction() == net.pins[q].interconnect.direction()
                &&& forall|p: PinIndex|
                    !gone.contains(p) ==> (#[trigger] after.interconnect.links_to(p)
                        <==> net.pins[q].interconnect.links_to(p))
                &&& (forall|p: PinIndex|
                    gone.contains(p) ==> !#[trigger] net.pins[q].interconnect.links_to(p))
                    ==> after == net.pins[q]
            },
        forall|w: WireIndex| #[trigger]
            net.wires.contains_key(w) && !gone.contains(net.wires[w].0) && !gone.contains(
                net.wires[w].1,
            ) ==> net.without_pins(gone).wires.contains_key(w) && net.without_pins(gone).wires[w]
                == net.wires[w],
{
    assert forall|q: PinIndex| #[trigger] net.pins.contains_key(q) && !gone.contains(q) implies {
        let after = net.without_pins(gone).pins[q];
        &&& forall|p: PinIndex|
            !gone.contains(p) ==> (#[trigger] after.interconnect.links_to(p)
                <==> net.pins[q].interconnect.links_to(p))
        &&& (forall|p: PinIndex|
            gone.contains(p) ==> !#[trigger] net.pins[q].interconnect.links_to(p)) ==> after
            == net.pins[q]
    } by {
        let after = net.without_pins(gone).pins[q];
        match net.pins[q].interconnect {
            InterconnectView::Input { connection } => {
                if connection.is_some() && gone.contains(connection.unwrap()) {
                    assert(net.pins[q].interconnect.links_to(connection.unwrap()));
                }
            },
            InterconnectView::Output { connections } => {
                assert forall|p: PinIndex| !gone.contains(p) implies (
                #[trigger] after.interconnect.links_to(p) <==> net.pins[q].interconnect.links_to(
                    p,
                )) by {
                    lemma_prune_contains(connections, gone, p);
                }
                if forall|p: PinIndex|
                    gone.contains(p) ==> !#[trigger] net.pins[q].interconnect.links_to(p) {
                    assert forall|i: int| 0 <= i < connections.len() implies !gone.contains(
                        #[trigger] connections[i],
                    ) by {
                        if gone.contains(connections[i]) {
                            assert(net.pins[q].interconnect.links_to(connections[i]));
                        }
                    }
                    lemma_prune_disjoint(connections, gone);
                }
            },
        }
    }
}

/// In a consistent netlist, taking pins out leaves every module that lists
/// none of them as it was.
pub proof fn law_removed_pins_spare_other_modules(net: NetlistView, gone: Set<PinIndex>)
    ensures
        forall|m: ModuleIndex| #[trigger]
            net.modules.contains_key(m) ==> {
                let after = net.without_pins(gone).modules[m];
                &&& net.without_pins(gone).modules.contains_key(m)
                &&& after.name == net.modules[m].name
                &&& after.id == net.modules[m].id
                &&& after.position == net.modules[m].position
                &&& (forall|p: PinIndex| gone.contains(p) ==> !#[trigger] net.modules[m].owns(p))
                    ==> after == net.modules[m]
            },
{
    assert forall|m: ModuleIndex| #[trigger] net.modules.contains_key(m) && (forall|p: PinIndex|
        gone.contains(p) ==> !#[trigger] net.modules[m].owns(p)) implies net.without_pins(
        gone,
    ).modules[m] == net.modules[m] by {
        let module = net.modules[m];
        assert forall|i: int| 0 <= i < module.inputs.len() implies !gone.contains(
            #[trigger] module.inputs[i],
        ) by {
            if gone.contains(module.inputs[i]) {
                assert(module.owns(module.inputs[i]));
            }
        }
        assert forall|i: int| 0 <= i < module.outputs.len() implies !gone.contains(
            #[trigger] module.outputs[i],
        ) by {
            if gone.contains(module.outputs[i]) {
                assert(module.owns(module.outputs[i]));
            }
        }
        lemma_prune_disjoint(module.inputs, gone);
        lemma_prune_disjoint(module.outputs, gone);
    }
}

/// After a module is removed from a consistent netlist, the module and the
/// pins that it listed do not resolve, and no wire ends at one of those pins.
/// Every other module is as it was. Every other pin is as it was but for its
/// links to those pins, and every wire between other pins is as it was.
pub proof fn law_removed_module_takes_its_pins(net: NetlistView, module: ModuleIndex)
    requires
        net.wf(),
        net.modules.contains_key(module),
    ensures
        !net.without_module(module).modules.contains_key(module),
        forall|p: PinIndex| #[trigger]
            net.modules[module].owns(p) ==> !net.without_module(module).pins.contains_key(p),
        forall|q: PinIndex, p: PinIndex|
            #![trigger net.without_module(module).pins[q].interconnect.links_to(p)]
            net.without_module(module).pins.contains_key(q) && net.modules[module].owns(p)
                ==> !net.without_module(module).pins[q].interconnect.links_to(p),
        forall|w: WireIndex| #[trigger]
            net.without_module(module).wires.contains_key(w) ==> !net.modules[module].owns(
                net.wires[w].0,
            ) && !net.modules[module].owns(net.wires[w].1),
        forall|m: ModuleIndex| #[trigger]
            net.modules.contains_key(m) && m != module ==> net.without_module(
                module,
            ).modules.contains_key(m) && net.without_module(module).modules[m] == net.modules[m],
        forall|q: PinIndex| #[trigger]
            net.pins.contains_key(q) && !net.modules[module].owns(q) ==> net.without_module(
                module,
            ).pins.contains_key(q) && net.without_module(module).pins[q] == net.pins[q].without(
                net.modules[module].pins().to_set(),
            ),
        forall|w: WireIndex| #[trigger]
            net.wires.contains_key(w) && !net.modules[module].owns(net.wires[w].0)
                && !net.modules[module].owns(net.wires[w].1) ==> net.without_module(
                module,
            ).wires.contains_key(w) && net.without_module(module).wires[w] == net.wires[w],
{
    let base = net.orphaned(module);
    let listed = net.modules[module].pins();
    let gone = listed.to_set();
    let after = net.without_module(module);
    assert forall|p: PinIndex| gone.contains(p) <==> net.modules[module].owns(p) by {
        lemma_concat_contains(net.modules[module].inputs, net.modules[module].outputs, p);
    }
    law_removed_pins_leave_no_trace(base, gone);
    law_removed_pins_spare_other_modules(base, gone);
    assert forall|q: PinIndex, p: PinIndex|
        #![trigger after.pins[q].interconnect.links_to(p)]
        after.pins.contains_key(q) && net.modules[module].owns(p) implies !after.pins[q].interconnect.links_to(
        p,
    ) by {
        assert(gone.contains(p));
    }
    assert forall|m: ModuleIndex| #[trigger]
        net.modules.contains_key(m) && m != module implies after.modules.contains_key(m)
        && after.modules[m] == net.modules[m] by {
        assert(base.modules.contains_key(m));
        assert forall|p: PinIndex| gone.contains(p) implies !#[trigger] base.modules[m].owns(p) by {
            let own = net.modules[m];
            let other = net.modules[module];
            if own.owns(p) {
                if own.inputs.contains(p) {
                    let i = choose|i: int| 0 <= i < own.inputs.len() && own.inputs[i] == p;
                    assert(net.owned_as(m, own.inputs[i], InterconnectDirection::Input));
                } else {
                    let i = choose|i: int| 0 <= i < own.outputs.len() && own.outputs[i] == p;
                    assert(net.owned_as(m, own.outputs[i], InterconnectDirection::Output));
                }
                if other.inputs.contains(p) {
                    let i = choose|i: int| 0 <= i < other.inputs.len() && other.inputs[i] == p;
                    assert(net.owned_as(module, other.inputs[i], InterconnectDirection::Input));
                } else {
                    let i = choose|i: int| 0 <= i < other.outputs.len() && other.outputs[i] == p;
                    assert(net.owned_as(module, other.outputs[i], InterconnectDirection::Output));
                }
            }
        }
    }
}

/// A new module gets the id that the counter shows, which is above the id of
/// every live module; and no operation turns the counter back, so that the id
/// of a module is never given to another, also after the module is removed.
pub proof fn law_module_ids_are_never_reused(
    net: NetlistView,
    module: ModuleIndex,
    name: Seq<char>,
    other: ModuleIndex,
    gone: Set<PinIndex>,
    wire: WireIndex,
    position: (u32, u32),
)
    requires
        net.wf(),
        net.next_module_id < i32::MAX,
        !net.modules.contains_key(module),
    ensures
        net.with_module(module, name).modules[module].id == net.next_module_id,
        net.with_module(module, name).next_module_id == net.next_module_id + 1,
        net.modules.contains_key(other) ==> net.modules[other].id < net.next_module_id
            && net.with_module(module, name).modules[other].id == net.modules[other].id,
        net.without_pins(gone).next_module_id == net.next_module_id,
        net.without_module(other).next_module_id == net.next_module_id,
        net.disconnected(wire).next_module_id == net.next_module_id,
        net.moved(other, position).next_module_id == net.next_module_id,
        forall|pin: PinIndex, kind: PinKind, direction: InterconnectDirection|
            (#[trigger] net.with_pin(pin, other, name, kind, direction)).next_module_id
                == net.next_module_id,
        forall|input: PinIndex, output: PinIndex|
            (#[trigger] net.connected(wire, input, output)).next_module_id == net.next_module_id,
{
}

/// A module, a pin or a wire that is taken out of a consistent netlist is
/// retired: its handle does not resolve, and is of a generation before that
/// of the next handle.
pub proof fn law_removed_handles_are_retired(
    net: NetlistView,
    module: ModuleIndex,
    pin: PinIndex,
    wire: WireIndex,
)
    requires
        net.wf(),
    ensures
        net.pins.contains_key(pin) ==> net.without_pins(set![pin]).retired_pin(pin),
        net.wires.contains_key(wire) ==> net.disconnected(wire).retired_wire(wire),
        net.wires.contains_key(wire) && (net.wires[wire].0 == pin || net.wires[wire].1 == pin)
            ==> net.without_pins(set![pin]).retired_wire(wire),
        net.modules.contains_key(module) ==> net.without_module(module).retired_module(module),
        net.modules.contains_key(module) && net.modules[module].owns(pin) ==> net.without_module(
            module,
        ).retired_pin(pin),
        net.modules.contains_key(module) && net.wires.contains_key(wire) && (
        net.modules[module].owns(net.wires[wire].0) || net.modules[module].owns(
            net.wires[wire].1,
        )) ==> net.without_module(module).retired_wire(wire),
{
    if net.pins.contains_key(pin) {
        let after = net.without_pins(set![pin]);
        lemma_len_subset(after.pins.dom(), net.pins.dom().remove(pin));
    }
    if net.wires.contains_key(wire) {
        let after = net.disconnected(wire);
        assert(after.wires.dom() =~= net.wires.dom().remove(wire));
        if net.wires[wire].0 == pin || net.wires[wire].1 == pin {
            let cut = net.without_pins(set![pin]);
            lemma_len_subset(cut.wires.dom(), net.wires.dom().remove(wire));
        }
    }
    if net.modules.contains_key(module) {
        let after = net.without_module(module);
        let gone = net.modules[module].pins().to_set();
        assert(after.modules.dom() =~= net.modules.dom().remove(module));
        assert(gone.contains(pin) <==> net.modules[module].owns(pin)) by {
            lemma_concat_contains(net.modules[module].inputs, net.modules[module].outputs, pin);
        }
        law_consistency(net);
        if net.modules[module].owns(pin) {
            lemma_len_subset(after.pins.dom(), net.pins.dom().remove(pin));
        }
        if net.wires.contains_key(wire) {
            let i = net.wires[wire].0;
            let o = net.wires[wire].1;
            assert(gone.contains(i) <==> net.modules[module].owns(i)) by {
                lemma_concat_contains(net.modules[module].inputs, net.modules[module].outputs, i);
            }
            assert(gone.contains(o) <==> net.modules[module].owns(o)) by {
                lemma_concat_contains(net.modules[module].inputs, net.modules[module].outputs, o);
            }
            if net.modules[module].owns(i) || net.modules[module].owns(o) {
                lemma_len_subset(after.wires.dom(), net.wires.dom().remove(wire));
            }
        }
    }
}

/// A handle that is retired stays retired whatever is removed or moved.
pub proof fn law_removals_spare_retired_handles(
    net: NetlistView,
    gone: Set<PinIndex>,
    module: ModuleIndex,
    wire: WireIndex,
    position: (u32, u32),
)
    requires
        net.wf(),
    ensures
        net.nothing_added(net.without_pins(gone)),
        net.modules.contains_key(module) ==> net.nothing_added(net.without_module(module))
            && net.nothing_added(net.moved(module, position)),
        net.wires.contains_key(wire) ==> net.nothing_added(net.disconnected(wire)),
        forall|after: NetlistView, m: ModuleIndex|
            net.nothing_added(after) && net.retired_module(m) ==> #[trigger] after.retired_module(m),
        forall|after: NetlistView, p: PinIndex|
            net.nothing_added(after) && net.retired_pin(p) ==> #[trigger] after.retired_pin(p),
        forall|after: NetlistView, w: WireIndex|
            net.nothing_added(after) && net.retired_wire(w) ==> #[trigger] after.retired_wire(w),
{
    assert(net.without_pins(gone).modules.dom() =~= net.modules.dom());
    if net.modules.contains_key(module) {
        assert(net.orphaned(module).without_pins(
            net.modules[module].pins().to_set(),
        ).modules.dom() =~= net.modules.dom().remove(module));
        assert(net.moved(module, position).modules.dom() =~= net.modules.dom());
    }
    if net.wires.contains_key(wire) {
        assert(net.disconnected(wire).pins.dom() =~= net.pins.dom());
    }
    assert forall|after: NetlistView, m: ModuleIndex|
        net.nothing_added(after) && net.retired_module(m) implies #[trigger] after.retired_module(
        m,
    ) by {
        net.lemma_nothing_added(after);
    }
    assert forall|after: NetlistView, p: PinIndex|
        net.nothing_added(after) && net.retired_pin(p) implies #[trigger] after.retired_pin(p) by {
        net.lemma_nothing_added(after);
    }
    assert forall|after: NetlistView, w: WireIndex|
        net.nothing_added(after) && net.retired_wire(w) implies #[trigger] after.retired_wire(w) by {
        net.lemma_nothing_added(after);
    }
}

/// A handle that is retired stays retired whatever is added, and what is
/// added gets a handle that is not retired: a new handle is of the generation
/// that the netlist has reached, which no retired handle is.
pub proof fn law_additions_spare_retired_handles(
    net: NetlistView,
    module: ModuleIndex,
    pin: PinIndex,
    wire: WireIndex,
    stale_module: ModuleIndex,
    stale_pin: PinIndex,
    stale_wire: WireIndex,
)
    requires
        net.wf(),
    ensures
        net.retired_module(stale_module) && module.0.generation == net.module_epoch()
            && net.next_module_id < i32::MAX ==> module != stale_module && forall|
            name: Seq<char>,
        |
            (#[trigger] net.with_module(module, name)).retired_module(stale_module),
        net.retired_pin(stale_pin) && pin.0.generation == net.pin_epoch() && net.pins_made
            < u64::MAX ==> pin != stale_pin && forall|
            parent: ModuleIndex,
            name: Seq<char>,
            kind: PinKind,
            direction: InterconnectDirection,
        |
            (#[trigger] net.with_pin(pin, parent, name, kind, direction)).retired_pin(stale_pin),
        net.retired_wire(stale_wire) && wire.0.generation == net.wire_epoch() && net.wires_made
            < u64::MAX ==> wire != stale_wire && forall|input: PinIndex, output: PinIndex|
            (#[trigger] net.connected(wire, input, output)).retired_wire(stale_wire),
{
    if net.retired_module(stale_module) && module.0.generation == net.module_epoch()
        && net.next_module_id < i32::MAX {
        assert forall|name: Seq<char>|
            (#[trigger] net.with_module(module, name)).retired_module(stale_module) by {
            let after = net.with_module(module, name);
            assert(after.modules.dom() =~= net.modules.dom().insert(module));
            if !net.modules.contains_key(module) {
            } else {
                assert(after.modules.dom() =~= net.modules.dom());
            }
        }
    }
    if net.retired_pin(stale_pin) && pin.0.generation == net.pin_epoch() && net.pins_made
        < u64::MAX {
        assert forall|
            parent: ModuleIndex,
            name: Seq<char>,
            kind: PinKind,
            direction: InterconnectDirection,
        |
            (#[trigger] net.with_pin(pin, parent, name, kind, direction)).retired_pin(
                stale_pin,
            ) by {
            let after = net.with_pin(pin, parent, name, kind, direction);
            assert(after.pins.dom() =~= net.pins.dom().insert(pin));
            if net.pins.contains_key(pin) {
                assert(after.pins.dom() =~= net.pins.dom());
            }
        }
    }
    if net.retired_wire(stale_wire) && wire.0.generation == net.wire_epoch() && net.wires_made
        < u64::MAX {
        assert forall|input: PinIndex, output: PinIndex|
            (#[trigger] net.connected(wire, input, output)).retired_wire(stale_wire) by {
            let after = net.connected(wire, input, output);
            assert(after.wires.dom() =~= net.wires.dom().insert(wire));
            if net.wires.contains_key(wire) {
                assert(after.wires.dom() =~= net.wires.dom());
            }
        }
    }
}

} // verus!
