//! The netlist as a front end drives it: a netlist, and the tables that
//! turn the small integers of the last picture into handles.

use vstd::prelude::*;
use vstd::string::*;
use crate::graph::{
    lemma_index_of,
    lemma_numbering_grows,
    lemma_numbering_one_to_one,
    lemma_owner,
    numbering,
    one_to_one,
    owner,
    paired,
    CGraph,
    CModule,
    CPort,
    CWire,
};
use crate::error::ConnectionError;
use crate::handle::{is_slot_order, lemma_slot_order_is, Handle, ModuleIndex, PinIndex, WireIndex};
use crate::idmap;
use crate::idmap::{id_pairs, IdTable};
use crate::kinds::{InterconnectDirection, PinKind};
use crate::library::LibraryModule;
use crate::model::NetlistView;
use crate::netlist::Netlist;

verus! {

/// A netlist together with the numbers under which its modules, pins and
/// wires were last drawn.
///
/// The tables are filled by [`get_graph`] and by nothing else, so after a
/// change to the netlist a number may stand for a handle that no longer
/// resolves. Such a number is refused like one that was never given out.
#[derive(Debug)]
pub struct Editor {
    netlist: Netlist,
    mod_map: IdTable,
    pin_map: IdTable,
    wire_map: IdTable,
}

/// The mathematical value of an [`Editor`].
#[verifier::ext_equal]
pub ghost struct EditorView {
    pub netlist: NetlistView,
    pub module_ids: Map<ModuleIndex, i32>,
    pub pin_ids: Map<PinIndex, i32>,
    pub wire_ids: Map<WireIndex, i32>,
}

/// The pairs of a table, read as the ids of modules.
pub open spec fn module_table(table: IdTable) -> Map<ModuleIndex, i32> {
    Map::new(
        |m: ModuleIndex| id_pairs(table).contains_key(m.0),
        |m: ModuleIndex| id_pairs(table)[m.0],
    )
}

/// The pairs of a table, read as the ids of pins.
pub open spec fn pin_table(table: IdTable) -> Map<PinIndex, i32> {
    Map::new(|p: PinIndex| id_pairs(table).contains_key(p.0), |p: PinIndex| id_pairs(table)[p.0])
}

/// The pairs of a table, read as the ids of wires.
pub open spec fn wire_table(table: IdTable) -> Map<WireIndex, i32> {
    Map::new(|w: WireIndex| id_pairs(table).contains_key(w.0), |w: WireIndex| id_pairs(table)[w.0])
}

impl NetlistView {
    /// The number that each live module is drawn under: its place in the
    /// enumeration.
    pub open spec fn module_numbers(self) -> Map<ModuleIndex, i32> {
        Map::new(
            |m: ModuleIndex| self.module_order().contains(m.0),
            |m: ModuleIndex| self.module_order().index_of(m.0) as i32,
        )
    }

    /// The number that each live wire is drawn under: its place in the
    /// enumeration.
    pub open spec fn wire_numbers(self) -> Map<WireIndex, i32> {
        Map::new(
            |w: WireIndex| self.wire_order().contains(w.0),
            |w: WireIndex| self.wire_order().index_of(w.0) as i32,
        )
    }
}

impl View for Editor {
    type V = EditorView;

    closed spec fn view(&self) -> EditorView {
        EditorView {
            netlist: self.netlist@,
            module_ids: module_table(self.mod_map),
            pin_ids: pin_table(self.pin_map),
            wire_ids: wire_table(self.wire_map),
        }
    }
}

impl EditorView {
    /// What holds of an editor between any two operations: the netlist is
    /// consistent, and no table gives one id to two handles.
    pub open spec fn wf(self) -> bool {
        &&& self.netlist.wf()
        &&& one_to_one(self.module_ids)
        &&& one_to_one(self.pin_ids)
        &&& one_to_one(self.wire_ids)
    }
}

impl Editor {
    /// Whether the editor is consistent. Every operation keeps it so.
    pub open spec fn wf(&self) -> bool {
        self@.wf() && self.netlist_agrees()
    }

    /// Whether the netlist of the editor is consistent beyond what its value
    /// shows.
    pub closed spec fn netlist_agrees(&self) -> bool {
        self.netlist.counters_agree()
    }

    /// An editor with an empty netlist and empty tables.
    pub fn new() -> (editor: Editor)
        ensures
            editor.wf(),
            editor@.netlist == NetlistView::empty(),
            editor@.module_ids == Map::<ModuleIndex, i32>::empty(),
            editor@.pin_ids == Map::<PinIndex, i32>::empty(),
            editor@.wire_ids == Map::<WireIndex, i32>::empty(),
    {
        let editor = Editor {
            netlist: Netlist::new(),
            mod_map: idmap::new_table(),
            pin_map: idmap::new_table(),
            wire_map: idmap::new_table(),
        };
        proof {
            assert(editor@.module_ids =~= Map::<ModuleIndex, i32>::empty());
            assert(editor@.pin_ids =~= Map::<PinIndex, i32>::empty());
            assert(editor@.wire_ids =~= Map::<WireIndex, i32>::empty());
        }
        editor
    }

    /// The netlist of the editor.
    pub fn netlist(&self) -> (netlist: &Netlist)
        ensures
            netlist@ == self@.netlist,
            self.wf() ==> netlist.wf(),
    {
        &self.netlist
    }

    /// The module that was last drawn under `mod_id`, if there was one.
    pub fn module_by_id(&self, mod_id: i32) -> (module: Option<ModuleIndex>)
        requires
            self.wf(),
        ensures
            module == owner(self@.module_ids, mod_id),
    {
        match idmap::get_by_right(&self.mod_map, mod_id) {
            Some(h) => {
                proof {
                    lemma_owner(self@.module_ids, ModuleIndex(h), mod_id);
                }
                Some(ModuleIndex(h))
            },
            None => {
                proof {
                    assert forall|m: ModuleIndex| self@.module_ids.contains_key(m) implies self@.module_ids[m]
                        != mod_id by {
                        assert(id_pairs(self.mod_map).contains_key(m.0));
                    }
                }
                None
            },
        }
    }

    /// The pin that was last drawn under `pin_id`, if there was one.
    pub fn pin_by_id(&self, pin_id: i32) -> (pin: Option<PinIndex>)
        requires
            self.wf(),
        ensures
            pin == owner(self@.pin_ids, pin_id),
    {
        match idmap::get_by_right(&self.pin_map, pin_id) {
            Some(h) => {
                proof {
                    lemma_owner(self@.pin_ids, PinIndex(h), pin_id);
                }
                Some(PinIndex(h))
            },
            None => {
                proof {
                    assert forall|p: PinIndex| self@.pin_ids.contains_key(p) implies self@.pin_ids[p]
                        != pin_id by {
                        assert(id_pairs(self.pin_map).contains_key(p.0));
                    }
                }
                None
            },
        }
    }

    /// The wire that was last drawn under `wire_id`, if there was one.
    pub fn wire_by_id(&self, wire_id: i32) -> (wire: Option<WireIndex>)
        requires
            self.wf(),
        ensures
            wire == owner(self@.wire_ids, wire_id),
    {
        match idmap::get_by_right(&self.wire_map, wire_id) {
            Some(h) => {
                proof {
                    lemma_owner(self@.wire_ids, WireIndex(h), wire_id);
                }
                Some(WireIndex(h))
            },
            None => {
                proof {
                    assert forall|w: WireIndex| self@.wire_ids.contains_key(w) implies self@.wire_ids[w]
                        != wire_id by {
                        assert(id_pairs(self.wire_map).contains_key(w.0));
                    }
                }
                None
            },
        }
    }
}

/// Draws the pins `pins` of `netlist` and numbers them on from `next`, which
/// is the number of pins `done` that were numbered before.
fn number_ports(
    netlist: &Netlist,
    table: &mut IdTable,
    pins: &[PinIndex],
    next: &mut i32,
    Ghost(done): Ghost<Seq<PinIndex>>,
) -> (ports: Vec<CPort>)
    requires
        pin_table(*old(table)) == numbering(done),
        (done + pins@).no_duplicates(),
        *old(next) == done.len(),
        done.len() + pins@.len() <= i32::MAX,
        forall|k: int| 0 <= k < pins@.len() ==> netlist@.pins.contains_key(#[trigger] pins@[k]),
    ensures
        pin_table(*final(table)) == numbering(done + pins@),
        *final(next) == done.len() + pins@.len(),
        ports@.map_values(|p: CPort| p@) == netlist@.ports(pins@, done.len() as int),
{
    let mut ports: Vec<CPort> = Vec::new();
    let mut k: usize = 0;
    proof {
        assert(done + pins@.take(0) == done);
    }
    while k < pins.len()
        invariant
            k <= pins.len(),
            pin_table(*table) == numbering(done + pins@.take(k as int)),
            (done + pins@).no_duplicates(),
            *next == done.len() + k,
            done.len() + pins@.len() <= i32::MAX,
            forall|j: int| 0 <= j < pins@.len() ==> netlist@.pins.contains_key(#[trigger] pins@[j]),
            ports@.len() == k,
            forall|j: int|
                0 <= j < k ==> (#[trigger] ports@[j])@ == netlist@.ports(
                    pins@,
                    done.len() as int,
                )[j],
        decreases pins.len() - k,
    {
        let x = pins[k];
        let ghost so_far = done + pins@.take(k as int);
        let ghost all = done + pins@;
        let ghost before = pin_table(*table);
        proof {
            assert forall|i: int, j: int|
                0 <= i < so_far.len() && 0 <= j < so_far.len() && i != j implies so_far[i]
                != so_far[j] by {
                assert(so_far[i] == all[i] && so_far[j] == all[j]);
            }
            if so_far.contains(x) {
                let i = choose|i: int| 0 <= i < so_far.len() && so_far[i] == x;
                assert(all[i] == x && all[done.len() + k] == x);
            }
            lemma_numbering_grows(so_far, x);
            assert(so_far.push(x) == done + pins@.take(k + 1));
        }
        let pin = netlist.get_pin(x).expect("These will always be valid");
        let id = *next;
        let name = pin.name().to_owned();
        *next += 1;
        idmap::insert(table, x.0, id);
        proof {
            assert(pin_table(*table) =~= paired(before, x, id));
        }
        ports.push(CPort { id, name });
        k += 1;
    }
    proof {
        assert(pins@.take(k as int) == pins@);
        assert(ports@.map_values(|p: CPort| p@) =~= netlist@.ports(pins@, done.len() as int));
    }
    ports
}

/// Whether the modules, the listed pins and the wires of the netlist can each
/// be counted in 32 bits, as [`get_graph`] asks.
pub fn numbers_fit(editor: &Editor) -> (fit: bool)
    ensures
        fit == editor@.netlist.numbers_fit(),
{
    let limit: usize = 0x7fff_ffff;
    let modules = editor.netlist.modules();
    let wires = editor.netlist.wires();
    if modules.len() > limit || wires.len() > limit {
        return false;
    }
    let ghost net = editor@.netlist;
    let ghost order = net.module_order();
    let mut listed: usize = 0;
    let mut i: usize = 0;
    proof {
        assert(order.take(0) =~= Seq::<Handle>::empty());
    }
    while i < modules.len()
        invariant
            i <= modules.len(),
            limit == 0x7fff_ffff,
            net == editor@.netlist,
            order == net.module_order(),
            modules@.len() == order.len(),
            forall|k: int|
                0 <= k < modules@.len() ==> (#[trigger] modules@[k]).0 == order[k]
                    && modules@[k].1@ == net.modules[ModuleIndex(modules@[k].0)],
            listed == net.listed_pins(order.take(i as int)).len(),
            listed <= limit,
        decreases modules.len() - i,
    {
        let module = modules[i].1;
        proof {
            net.lemma_listed_pins_step(order, i as int);
            lemma_listed_prefix(net, order, i + 1);
        }
        let inputs = module.inputs().len();
        let outputs = module.outputs().len();
        if inputs > limit - listed || outputs > limit - listed - inputs {
            return false;
        }
        listed = listed + inputs + outputs;
        i += 1;
    }
    proof {
        assert(order.take(i as int) == order);
    }
    true
}

/// Draws the netlist and renumbers everything in it.
///
/// The live modules are numbered from 0 in the order in which the netlist
/// enumerates them, and so are the live wires. The pins are numbered from 0
/// module after module, the inputs of a module before its outputs. The
/// tables are emptied and then hold exactly these numbers; the netlist itself
/// does not change.
pub fn get_graph(editor: &mut Editor) -> (graph: CGraph)
    requires
        old(editor).wf(),
        old(editor)@.netlist.numbers_fit(),
    ensures
        final(editor).wf(),
        final(editor)@.netlist == old(editor)@.netlist,
        final(editor)@.module_ids == old(editor)@.netlist.module_numbers(),
        final(editor)@.pin_ids == old(editor)@.netlist.pin_numbers(),
        final(editor)@.wire_ids == old(editor)@.netlist.wire_numbers(),
        graph@ == old(editor)@.netlist.snapshot(),
{
    let ghost net = old(editor)@.netlist;
    let ghost order = net.module_order();
    idmap::clear(&mut editor.mod_map);
    idmap::clear(&mut editor.pin_map);
    idmap::clear(&mut editor.wire_map);

    let mut pin_id: i32 = 0;
    let items = editor.netlist.modules();
    let mut modules: Vec<CModule> = Vec::new();
    let mut i: usize = 0;
    proof {
        lemma_slot_order_is(order, net.module_handles());
        assert(order.take(0) =~= Seq::<Handle>::empty());
        assert(id_pairs(editor.mod_map) =~= numbering(order.take(0)));
        assert(pin_table(editor.pin_map) =~= numbering(net.listed_pins(order.take(0))));
        assert forall|k: int| 0 <= k < order.len() implies net.modules.contains_key(
            ModuleIndex(#[trigger] order[k]),
        ) by {
            assert(order.contains(order[k]));
            assert(net.module_handles().contains(order[k]));
        }
        net.lemma_listed_pins_distinct(order);
    }
    while i < items.len()
        invariant
            i <= items.len(),
            net == old(editor)@.netlist,
            net.wf(),
            net.numbers_fit(),
            editor.netlist@ == net,
            editor.netlist_agrees(),
            order == net.module_order(),
            order.no_duplicates(),
            net.listed_pins(order).no_duplicates(),
            forall|k: int|
                0 <= k < order.len() ==> net.modules.contains_key(ModuleIndex(#[trigger] order[k])),
            items@.len() == order.len(),
            forall|k: int|
                0 <= k < items@.len() ==> (#[trigger] items@[k]).0 == order[k] && items@[k].1@
                    == net.modules[ModuleIndex(items@[k].0)],
            id_pairs(editor.mod_map) == numbering(order.take(i as int)),
            pin_table(editor.pin_map) == numbering(net.listed_pins(order.take(i as int))),
            id_pairs(editor.wire_map) == (Map::<Handle, i32>::empty()),
            pin_id == net.listed_pins(order.take(i as int)).len(),
            modules@.len() == i,
            forall|k: int| 0 <= k < i ==> (#[trigger] modules@[k])@ == net.drawn_module(k),
        decreases items.len() - i,
    {
        let (mi, m) = items[i];
        let id = i as i32;
        let ghost before = net.listed_pins(order.take(i as int));
        let ghost own = net.modules[ModuleIndex(mi)];
        let ghost all = net.listed_pins(order);
        proof {
            let front = order.take(i as int);
            assert forall|a: int, b: int|
                0 <= a < front.len() && 0 <= b < front.len() && a != b implies front[a]
                != front[b] by {
                assert(front[a] == order[a] && front[b] == order[b]);
            }
            if front.contains(mi) {
                let a = choose|a: int| 0 <= a < front.len() && front[a] == mi;
                assert(order[a] == mi && order[i as int] == mi);
            }
            lemma_numbering_grows(front, mi);
            assert(front.push(mi) == order.take(i + 1));
            net.lemma_listed_pins_step(order, i as int);
            lemma_listed_prefix(net, order, i + 1);
            let grown = net.listed_pins(order.take(i + 1));
            assert(grown == before + own.inputs + own.outputs);
            assert forall|a: int, b: int|
                0 <= a < grown.len() && 0 <= b < grown.len() && a != b implies grown[a]
                != grown[b] by {
                assert(grown[a] == all[a] && grown[b] == all[b]);
            }
            assert forall|a: int, b: int|
                0 <= a < (before + own.inputs).len() && 0 <= b < (before + own.inputs).len() && a
                    != b implies (before + own.inputs)[a] != (before + own.inputs)[b] by {
                assert((before + own.inputs)[a] == grown[a] && (before + own.inputs)[b]
                    == grown[b]);
            }
            assert forall|k: int| 0 <= k < own.inputs.len() implies net.pins.contains_key(
                #[trigger] own.inputs[k],
            ) by {
                assert(net.owned_as(ModuleIndex(mi), own.inputs[k], InterconnectDirection::Input));
            }
            assert forall|k: int| 0 <= k < own.outputs.len() implies net.pins.contains_key(
                #[trigger] own.outputs[k],
            ) by {
                assert(net.owned_as(ModuleIndex(mi), own.outputs[k], InterconnectDirection::Output));
            }
        }
        idmap::insert(&mut editor.mod_map, mi, id);
        let inputs = number_ports(
            &editor.netlist,
            &mut editor.pin_map,
            m.inputs(),
            &mut pin_id,
            Ghost(before),
        );
        let outputs = number_ports(
            &editor.netlist,
            &mut editor.pin_map,
            m.outputs(),
            &mut pin_id,
            Ghost(before + own.inputs),
        );
        modules.push(
            CModule { id, position: m.position(), name: m.name().to_owned(), inputs, outputs },
        );
        i += 1;
    }
    proof {
        assert(order.take(i as int) == order);
        assert(modules@.map_values(|m: CModule| m@) =~= net.snapshot().modules);
    }

    let wire_items = editor.netlist.wires();
    let ghost wire_order = net.wire_order();
    let mut wires: Vec<CWire> = Vec::new();
    let mut j: usize = 0;
    proof {
        lemma_slot_order_is(wire_order, net.wire_handles());
        assert(wire_order.take(0) =~= Seq::<Handle>::empty());
        assert(id_pairs(editor.wire_map) =~= numbering(wire_order.take(0)));
        lemma_numbering_one_to_one(net.listed_pins(order));
    }
    while j < wire_items.len()
        invariant
            j <= wire_items.len(),
            net == old(editor)@.netlist,
            net.wf(),
            net.numbers_fit(),
            editor.netlist@ == net,
            editor.netlist_agrees(),
            order == net.module_order(),
            is_slot_order(order, net.module_handles()),
            wire_order == net.wire_order(),
            wire_order.no_duplicates(),
            wire_items@.len() == wire_order.len(),
            forall|k: int|
                0 <= k < wire_items@.len() ==> (#[trigger] wire_items@[k]).0 == wire_order[k]
                    && net.wires.contains_key(WireIndex(wire_items@[k].0)) && *wire_items@[k].1
                    == net.wires[WireIndex(wire_items@[k].0)],
            id_pairs(editor.mod_map) == numbering(order),
            pin_table(editor.pin_map) == net.pin_numbers(),
            id_pairs(editor.wire_map) == numbering(wire_order.take(j as int)),
            wires@.len() == j,
            forall|k: int| 0 <= k < j ==> #[trigger] wires@[k] == net.drawn_wire(k),
        decreases wire_items.len() - j,
    {
        let (idx, ends) = wire_items[j];
        let (x, y) = *ends;
        proof {
            let front = wire_order.take(j as int);
            assert forall|a: int, b: int|
                0 <= a < front.len() && 0 <= b < front.len() && a != b implies front[a]
                != front[b] by {
                assert(front[a] == wire_order[a] && front[b] == wire_order[b]);
            }
            if front.contains(idx) {
                let a = choose|a: int| 0 <= a < front.len() && front[a] == idx;
                assert(wire_order[a] == idx && wire_order[j as int] == idx);
            }
            lemma_numbering_grows(front, idx);
            assert(front.push(idx) == wire_order.take(j + 1));
            assert(net.wires.contains_key(WireIndex(idx)));
            assert(net.driven_by(x, y));
            assert(net.mirrored(x));
            assert(net.drives(y, x));
            net.lemma_listed_pins_complete(x);
            net.lemma_listed_pins_complete(y);
            assert(net.pin_numbers().contains_key(x) && net.pin_numbers().contains_key(y));
            assert(pin_table(editor.pin_map).contains_key(x));
            assert(pin_table(editor.pin_map).contains_key(y));
            assert(id_pairs(editor.pin_map)[x.0] == net.pin_numbers()[x]);
            assert(id_pairs(editor.pin_map)[y.0] == net.pin_numbers()[y]);
        }
        idmap::insert(&mut editor.wire_map, idx, j as i32);
        wires.push(
            CWire {
                id: j as i32,
                x: idmap::get_by_left(&editor.pin_map, x.0).unwrap(),
                y: idmap::get_by_left(&editor.pin_map, y.0).unwrap(),
            },
        );
        j += 1;
    }
    proof {
        assert(wire_order.take(j as int) == wire_order);
        assert(wires@ =~= net.snapshot().wires);
        lemma_numbering_one_to_one(order);
        lemma_numbering_one_to_one(wire_order);
        assert(editor@.module_ids =~= net.module_numbers());
        assert(editor@.wire_ids =~= net.wire_numbers());
        assert(one_to_one(editor@.module_ids)) by {
            assert forall|a: ModuleIndex, b: ModuleIndex|
                #![trigger editor@.module_ids.contains_key(a), editor@.module_ids.contains_key(b)]
                editor@.module_ids.contains_key(a) && editor@.module_ids.contains_key(b)
                    && editor@.module_ids[a] == editor@.module_ids[b] implies a == b by {
                assert(numbering(order).contains_key(a.0) && numbering(order).contains_key(b.0));
            }
        }
        assert(one_to_one(editor@.wire_ids)) by {
            assert forall|a: WireIndex, b: WireIndex|
                #![trigger editor@.wire_ids.contains_key(a), editor@.wire_ids.contains_key(b)]
                editor@.wire_ids.contains_key(a) && editor@.wire_ids.contains_key(b)
                    && editor@.wire_ids[a] == editor@.wire_ids[b] implies a == b by {
                assert(numbering(wire_order).contains_key(a.0) && numbering(
                    wire_order,
                ).contains_key(b.0));
            }
        }
    }
    CGraph { modules, wires }
}

/// What a front of a list of modules lists is a front of what the whole list
/// lists.
proof fn lemma_listed_prefix(net: NetlistView, modules: Seq<Handle>, i: int)
    requires
        0 <= i <= modules.len(),
    ensures
        net.listed_pins(modules.take(i)).len() <= net.listed_pins(modules).len(),
        forall|k: int|
            0 <= k < net.listed_pins(modules.take(i)).len() ==> net.listed_pins(
                modules.take(i),
            )[k] == net.listed_pins(modules)[k],
    decreases modules.len() - i,
{
    if i < modules.len() {
        net.lemma_listed_pins_step(modules, i);
        lemma_listed_prefix(net, modules, i + 1);
    } else {
        assert(modules.take(i) == modules);
    }
}

/// Why [`add_wire`] made no wire.
#[derive(Debug, Clone, Copy, PartialEq, Eq, Structural)]
pub enum WireRequestError {
    /// No pin was last drawn under the first number.
    PinANotFound,
    /// No pin was last drawn under the second number.
    PinBNotFound,
    /// The netlist refused the connection.
    Refused(ConnectionError),
}

impl WireRequestError {
    /// What the error says to the user.
    pub open spec fn message(self) -> Seq<char> {
        match self {
            WireRequestError::PinANotFound => "Pin a not found"@,
            WireRequestError::PinBNotFound => "Pin b not found"@,
            WireRequestError::Refused(error) => error.message(),
        }
    }

    /// What the error says to the user.
    pub fn to_string(&self) -> (text: String)
        ensures
            text@ == self.message(),
    {
        match self {
            WireRequestError::PinANotFound => String::from_str("Pin a not found"),
            WireRequestError::PinBNotFound => String::from_str("Pin b not found"),
            WireRequestError::Refused(error) => error.to_string(),
        }
    }
}

impl EditorView {
    /// The same tables around netlist `netlist`.
    pub open spec fn around(self, netlist: NetlistView) -> EditorView {
        EditorView { netlist, ..self }
    }

    /// The module that `mod_id` stands for, if it stands for a live module.
    pub open spec fn live_module(self, mod_id: i32) -> Option<ModuleIndex> {
        match owner(self.module_ids, mod_id) {
            Some(module) if self.netlist.modules.contains_key(module) => Some(module),
            _ => None,
        }
    }

    /// The pin that `pin_id` stands for, if it stands for a live pin.
    pub open spec fn live_pin(self, pin_id: i32) -> Option<PinIndex> {
        match owner(self.pin_ids, pin_id) {
            Some(pin) if self.netlist.pins.contains_key(pin) => Some(pin),
            _ => None,
        }
    }

    /// The wire that `wire_id` stands for, if it stands for a live wire.
    pub open spec fn live_wire(self, wire_id: i32) -> Option<WireIndex> {
        match owner(self.wire_ids, wire_id) {
            Some(wire) if self.netlist.wires.contains_key(wire) => Some(wire),
            _ => None,
        }
    }

    /// Why a wire between the pins drawn under `a_id` and `b_id` is not made,
    /// if it is not. The first test that fails decides.
    pub open spec fn wire_request_error(self, a_id: i32, b_id: i32) -> Option<WireRequestError> {
        match (owner(self.pin_ids, a_id), owner(self.pin_ids, b_id)) {
            (None, _) => Some(WireRequestError::PinANotFound),
            (Some(_), None) => Some(WireRequestError::PinBNotFound),
            (Some(a), Some(b)) => match self.netlist.wire_error(a, b) {
                Some(error) => Some(WireRequestError::Refused(error)),
                None => None,
            },
        }
    }
}

/// Adds a module without pins to the netlist. The tables do not change, so
/// the module has no number until the netlist is drawn again.
pub fn add_module(editor: &mut Editor, name: String)
    requires
        old(editor).wf(),
        old(editor)@.netlist.next_module_id < i32::MAX,
    ensures
        final(editor).wf(),
        exists|module: ModuleIndex|
            !old(editor)@.netlist.modules.contains_key(module) && module.0.generation == old(
                editor,
            )@.netlist.module_epoch() && final(editor)@ == old(editor)@.around(
                #[trigger] old(editor)@.netlist.with_module(module, name@),
            ),
{
    let module = editor.netlist.add_module(name);
    proof {
        assert(editor@ =~= old(editor)@.around(old(editor)@.netlist.with_module(module, name@)));
    }
}

/// Adds a module that is a copy of the library block `module` and puts it at
/// `(x, y)`, two coordinates given by their bit patterns. Returns the handle
/// of the new module. The tables do not change.
pub fn add_module_from_library(editor: &mut Editor, module: LibraryModule, x: u32, y: u32) -> (idx:
    ModuleIndex)
    requires
        old(editor).wf(),
        old(editor)@.netlist.next_module_id < i32::MAX,
        old(editor)@.netlist.pins_made + module@.inputs.len() + module@.outputs.len()
            <= u64::MAX,
    ensures
        final(editor).wf(),
        !old(editor)@.netlist.modules.contains_key(idx),
        old(editor)@.netlist.fits(
            module@,
            final(editor)@.netlist.modules[idx].inputs,
            final(editor)@.netlist.modules[idx].outputs,
        ),
        final(editor)@ == old(editor)@.around(
            old(editor)@.netlist.with_library_module(
                idx,
                module@,
                final(editor)@.netlist.modules[idx].inputs,
                final(editor)@.netlist.modules[idx].outputs,
            ).moved(idx, (x, y)),
        ),
        final(editor)@.netlist.library_module(idx) == module@,
{
    let idx = editor.netlist.add_module_from_library(module);
    let ghost placed = editor.netlist@;
    editor.netlist.set_module_position(idx, x, y);
    proof {
        assert(placed.moved(idx, (x, y)).modules[idx].inputs == placed.modules[idx].inputs);
        assert(placed.moved(idx, (x, y)).library_module(idx) =~= placed.library_module(idx));
        assert(editor@ =~= old(editor)@.around(editor@.netlist));
    }
    idx
}

/// Removes the module that was last drawn under `mod_id`, with its pins, and
/// returns 0. Returns -1, and changes nothing, where `mod_id` stands for no
/// live module.
pub fn remove_module(editor: &mut Editor, mod_id: i32) -> (status: i32)
    requires
        old(editor).wf(),
    ensures
        final(editor).wf(),
        (match old(editor)@.live_module(mod_id) {
            Some(module) => status == 0 && final(editor)@ == old(editor)@.around(
                old(editor)@.netlist.without_module(module),
            ),
            None => status == -1 && final(editor)@ == old(editor)@,
        }),
{
    let m = match editor.module_by_id(mod_id) {
        Some(m) => m,
        None => {
            return -1;
        },
    };
    let status: i32 = if editor.netlist.remove_module(m).is_none() {
        -1
    } else {
        0
    };
    proof {
        assert(editor@ =~= old(editor)@.around(editor@.netlist));
    }
    status
}

/// Adds an unlinked pin to the module that was last drawn under `mod_id` and
/// returns 0. Returns -1, and changes nothing, where `mod_id` stands for no
/// live module.
pub fn add_pin(
    editor: &mut Editor,
    mod_id: i32,
    name: String,
    kind: PinKind,
    direction: InterconnectDirection,
) -> (status: i32)
    requires
        old(editor).wf(),
        old(editor)@.netlist.pins_made < u64::MAX,
    ensures
        final(editor).wf(),
        (match old(editor)@.live_module(mod_id) {
            Some(module) => status == 0 && exists|pin: PinIndex|
                !old(editor)@.netlist.pins.contains_key(pin) && pin.0.generation == old(
                    editor,
                )@.netlist.pin_epoch() && final(editor)@ == old(editor)@.around(
                    #[trigger] old(editor)@.netlist.with_pin(pin, module, name@, kind, direction),
                ),
            None => status == -1 && final(editor)@ == old(editor)@,
        }),
{
    let m = match editor.module_by_id(mod_id) {
        Some(m) => m,
        None => {
            return -1;
        },
    };
    let status: i32 = match editor.netlist.add_pin(m, name, kind, direction) {
        None => -1,
        Some(pin) => {
            proof {
                assert(editor@ =~= old(editor)@.around(
                    old(editor)@.netlist.with_pin(pin, m, name@, kind, direction),
                ));
            }
            0
        },
    };
    proof {
        assert(editor@ =~= old(editor)@.around(editor@.netlist));
    }
    status
}

/// Removes the pin that was last drawn under `pin_id`, with its links and
/// wires, and returns 0. Returns -1, and changes nothing, where `pin_id`
/// stands for no live pin.
pub fn remove_pin(editor: &mut Editor, pin_id: i32) -> (status: i32)
    requires
        old(editor).wf(),
    ensures
        final(editor).wf(),
        (match old(editor)@.live_pin(pin_id) {
            Some(pin) => status == 0 && final(editor)@ == old(editor)@.around(
                old(editor)@.netlist.without_pins(set![pin]),
            ),
            None => status == -1 && final(editor)@ == old(editor)@,
        }),
{
    let p = match editor.pin_by_id(pin_id) {
        Some(p) => p,
        None => {
            return -1;
        },
    };
    let status: i32 = if editor.netlist.remove_pin(p).is_none() {
        -1
    } else {
        0
    };
    proof {
        assert(editor@ =~= old(editor)@.around(editor@.netlist));
    }
    status
}

/// Wires the pins that were last drawn under `in_a_id` and `in_b_id`, in
/// either order. Where a number stands for no pin, or the netlist refuses the
/// connection, nothing changes and the error says why.
pub fn add_wire(editor: &mut Editor, in_a_id: i32, in_b_id: i32) -> (wired: Result<
    (),
    WireRequestError,
>)
    requires
        old(editor).wf(),
        old(editor)@.netlist.wires_made < u64::MAX,
    ensures
        final(editor).wf(),
        (match wired {
            Ok(_) => old(editor)@.wire_request_error(in_a_id, in_b_id).is_none() && exists|
                wire: WireIndex,
            |
                !old(editor)@.netlist.wires.contains_key(wire) && wire.0.generation == old(
                    editor,
                )@.netlist.wire_epoch() && final(editor)@ == old(editor)@.around(
                    #[trigger] old(editor)@.netlist.connected(
                        wire,
                        old(editor)@.netlist.wire_ends(
                            owner(old(editor)@.pin_ids, in_a_id).unwrap(),
                            owner(old(editor)@.pin_ids, in_b_id).unwrap(),
                        ).0,
                        old(editor)@.netlist.wire_ends(
                            owner(old(editor)@.pin_ids, in_a_id).unwrap(),
                            owner(old(editor)@.pin_ids, in_b_id).unwrap(),
                        ).1,
                    ),
                ),
            Err(error) => old(editor)@.wire_request_error(in_a_id, in_b_id) == Some(error)
                && final(editor)@ == old(editor)@,
        }),
{
    let a_idx = match editor.pin_by_id(in_a_id) {
        Some(a) => a,
        None => {
            return Err(WireRequestError::PinANotFound);
        },
    };
    let b_idx = match editor.pin_by_id(in_b_id) {
        Some(b) => b,
        None => {
            return Err(WireRequestError::PinBNotFound);
        },
    };
    match editor.netlist.add_wire(a_idx, b_idx) {
        Ok(wire) => {
            proof {
                let before = old(editor)@;
                let ends = before.netlist.wire_ends(a_idx, b_idx);
                assert(editor@ =~= before.around(before.netlist.connected(wire, ends.0, ends.1)));
            }
            Ok(())
        },
        Err(error) => {
            proof {
                assert(editor@ =~= old(editor)@);
            }
            Err(WireRequestError::Refused(error))
        },
    }
}

/// Removes the wire that was last drawn under `wire_id`, with the link that
/// it records, and returns 0. Returns -1, and changes nothing, where
/// `wire_id` stands for no live wire.
pub fn remove_wire(editor: &mut Editor, wire_id: i32) -> (status: i32)
    requires
        old(editor).wf(),
    ensures
        final(editor).wf(),
        (match old(editor)@.live_wire(wire_id) {
            Some(wire) => status == 0 && final(editor)@ == old(editor)@.around(
                old(editor)@.netlist.disconnected(wire),
            ),
            None => status == -1 && final(editor)@ == old(editor)@,
        }),
{
    let idx = match editor.wire_by_id(wire_id) {
        Some(w) => w,
        None => {
            return -1;
        },
    };
    let status: i32 = if editor.netlist.remove_wire(idx).is_none() {
        -1
    } else {
        0
    };
    proof {
        assert(editor@ =~= old(editor)@.around(editor@.netlist));
    }
    status
}

/// Puts the module that was last drawn under `mod_id` at `(x, y)`, two
/// coordinates given by their bit patterns, and returns 0. Returns -1, and
/// changes nothing, where `mod_id` stands for no live module.
pub fn set_module_position(editor: &mut Editor, mod_id: i32, x: u32, y: u32) -> (status: i32)
    requires
        old(editor).wf(),
    ensures
        final(editor).wf(),
        (match old(editor)@.live_module(mod_id) {
            Some(module) => status == 0 && final(editor)@ == old(editor)@.around(
                old(editor)@.netlist.moved(module, (x, y)),
            ),
            None => status == -1 && final(editor)@ == old(editor)@,
        }),
{
    let m = match editor.module_by_id(mod_id) {
        Some(m) => m,
        None => {
            return -1;
        },
    };
    let status: i32 = match editor.netlist.set_module_position(m, x, y) {
        Some(_) => 0,
        None => -1,
    };
    proof {
        assert(editor@ =~= old(editor)@.around(editor@.netlist));
    }
    status
}

} // verus!
