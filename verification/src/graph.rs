//! A picture of a netlist for a front end that knows small integers and no
//! handles: every module, pin and wire under a number of its own.

use vstd::prelude::*;
use crate::handle::{is_slot_order, Handle, ModuleIndex, PinIndex, WireIndex};
use crate::kinds::InterconnectDirection;
use crate::model::NetlistView;
use crate::pinlist::lemma_concat_contains;

verus! {

/// A pin as it is drawn: its number and its name.
#[derive(Debug)]
pub struct CPort {
    pub id: i32,
    pub name: String,
}

/// A module as it is drawn.
#[derive(Debug)]
pub struct CModule {
    pub id: i32,
    pub name: String,
    pub inputs: Vec<CPort>,
    pub outputs: Vec<CPort>,
    /// The bit patterns of the two coordinates.
    pub position: (u32, u32),
}

/// A wire as it is drawn: its number, the number of its input pin and the
/// number of its output pin.
#[derive(Debug, Clone, Copy, PartialEq, Eq, Structural)]
pub struct CWire {
    pub id: i32,
    pub x: i32,
    pub y: i32,
}

/// A picture of a netlist.
#[derive(Debug)]
pub struct CGraph {
    pub modules: Vec<CModule>,
    pub wires: Vec<CWire>,
}

/// The mathematical value of a [`CPort`].
#[verifier::ext_equal]
pub ghost struct CPortView {
    pub id: i32,
    pub name: Seq<char>,
}

/// The mathematical value of a [`CModule`].
#[verifier::ext_equal]
pub ghost struct CModuleView {
    pub id: i32,
    pub name: Seq<char>,
    pub inputs: Seq<CPortView>,
    pub outputs: Seq<CPortView>,
    pub position: (u32, u32),
}

/// The mathematical value of a [`CGraph`].
#[verifier::ext_equal]
pub ghost struct CGraphView {
    pub modules: Seq<CModuleView>,
    pub wires: Seq<CWire>,
}

impl View for CPort {
    type V = CPortView;

    open spec fn view(&self) -> CPortView {
        CPortView { id: self.id, name: self.name@ }
    }
}

impl View for CModule {
    type V = CModuleView;

    open spec fn view(&self) -> CModuleView {
        CModuleView {
            id: self.id,
            name: self.name@,
            inputs: self.inputs@.map_values(|p: CPort| p@),
            outputs: self.outputs@.map_values(|p: CPort| p@),
            position: self.position,
        }
    }
}

impl View for CGraph {
    type V = CGraphView;

    open spec fn view(&self) -> CGraphView {
        CGraphView { modules: self.modules@.map_values(|m: CModule| m@), wires: self.wires@ }
    }
}

/// The table that gives each member of `order` its place in `order`.
pub open spec fn numbering<K>(order: Seq<K>) -> Map<K, i32> {
    Map::new(|k: K| order.contains(k), |k: K| order.index_of(k) as i32)
}

/// Whether no two keys of `ids` have the same id.
pub open spec fn one_to_one<K>(ids: Map<K, i32>) -> bool {
    forall|a: K, b: K|
        #![trigger ids.contains_key(a), ids.contains_key(b)]
        ids.contains_key(a) && ids.contains_key(b) && ids[a] == ids[b] ==> a == b
}

/// The key whose id is `id`, if there is one.
pub open spec fn owner<K>(ids: Map<K, i32>, id: i32) -> Option<K> {
    if exists|k: K| ids.contains_key(k) && ids[k] == id {
        Some(choose|k: K| ids.contains_key(k) && ids[k] == id)
    } else {
        None
    }
}

/// Where no two keys share an id, the key that has `id` is its owner.
pub proof fn lemma_owner<K>(ids: Map<K, i32>, key: K, id: i32)
    requires
        one_to_one(ids),
        ids.contains_key(key),
        ids[key] == id,
    ensures
        owner(ids, id) == Some(key),
{
    let chosen = choose|k: K| ids.contains_key(k) && ids[k] == id;
    assert(ids.contains_key(chosen) && ids.contains_key(key));
}

/// `ids` after `key` is paired with `id`: the pair that `key` was in and the
/// pair that `id` was in are gone.
pub open spec fn paired<K>(ids: Map<K, i32>, key: K, id: i32) -> Map<K, i32> {
    Map::new(
        |k: K| k == key || (ids.contains_key(k) && ids[k] != id),
        |k: K|
            if k == key {
                id
            } else {
                ids[k]
            },
    )
}

/// In a list without repetitions, a member is found where it stands.
pub proof fn lemma_index_of<K>(order: Seq<K>, i: int)
    requires
        order.no_duplicates(),
        0 <= i < order.len(),
    ensures
        order.contains(order[i]),
        order.index_of(order[i]) == i,
{
    let j = order.index_of(order[i]);
    assert(0 <= j < order.len() && order[j] == order[i]);
}

/// Numbering one more key pairs it with the number of keys before it.
pub proof fn lemma_numbering_grows<K>(order: Seq<K>, key: K)
    requires
        order.no_duplicates(),
        !order.contains(key),
        order.len() <= i32::MAX,
    ensures
        order.push(key).no_duplicates(),
        numbering(order.push(key)) == paired(numbering(order), key, order.len() as i32),
{
    let grown = order.push(key);
    assert forall|i: int, j: int| 0 <= i < grown.len() && 0 <= j < grown.len() && i != j implies grown[i]
        != grown[j] by {
        if i < order.len() {
            assert(order[i] == grown[i]);
        }
        if j < order.len() {
            assert(order[j] == grown[j]);
        }
    }
    let a = numbering(grown);
    let b = paired(numbering(order), key, order.len() as i32);
    assert forall|k: K| a.contains_key(k) <==> b.contains_key(k) by {
        if grown.contains(k) {
            let i = choose|i: int| 0 <= i < grown.len() && grown[i] == k;
            if i < order.len() {
                assert(order[i] == k);
                lemma_index_of(order, i);
            }
        }
        if order.contains(k) {
            let i = choose|i: int| 0 <= i < order.len() && order[i] == k;
            assert(grown[i] == k);
            lemma_index_of(order, i);
        }
        assert(grown[order.len() as int] == key);
    }
    assert forall|k: K| #[trigger] a.contains_key(k) implies a[k] == b[k] by {
        let i = choose|i: int| 0 <= i < grown.len() && grown[i] == k;
        lemma_index_of(grown, i);
        if i < order.len() {
            assert(order[i] == k);
            lemma_index_of(order, i);
        }
    }
    assert(a =~= b);
}

/// A numbering of a list without repetitions gives no two keys one number,
/// and every number is a place in the list.
pub proof fn lemma_numbering_one_to_one<K>(order: Seq<K>)
    requires
        order.no_duplicates(),
        order.len() <= i32::MAX,
    ensures
        one_to_one(numbering(order)),
        forall|k: K| #[trigger]
            numbering(order).contains_key(k) ==> 0 <= numbering(order)[k] < order.len()
                && order[numbering(order)[k] as int] == k,
{
    let ids = numbering(order);
    assert forall|k: K| #[trigger] ids.contains_key(k) implies 0 <= ids[k] < order.len()
        && order[ids[k] as int] == k by {
        let i = choose|i: int| 0 <= i < order.len() && order[i] == k;
        lemma_index_of(order, i);
    }
}

impl NetlistView {
    /// The pins `pins` as they are drawn, numbered from `first` on.
    pub open spec fn ports(self, pins: Seq<PinIndex>, first: int) -> Seq<CPortView> {
        Seq::new(
            pins.len(),
            |k: int| CPortView { id: (first + k) as i32, name: self.pins[pins[k]].name },
        )
    }

    /// The live module at place `i` of the enumeration as it is drawn: its
    /// number is its place, and its pins are numbered on from the pins of the
    /// modules before it.
    pub open spec fn drawn_module(self, i: int) -> CModuleView {
        let order = self.module_order();
        let module = self.modules[ModuleIndex(order[i])];
        let first = self.listed_pins(order.take(i)).len();
        CModuleView {
            id: i as i32,
            name: module.name,
            inputs: self.ports(module.inputs, first as int),
            outputs: self.ports(module.outputs, (first + module.inputs.len()) as int),
            position: module.position,
        }
    }

    /// The number that each listed pin is drawn under.
    pub open spec fn pin_numbers(self) -> Map<PinIndex, i32> {
        numbering(self.listed_pins(self.module_order()))
    }

    /// The live wire at place `i` of the enumeration as it is drawn: its
    /// number is its place.
    pub open spec fn drawn_wire(self, i: int) -> CWire {
        let wire = self.wires[WireIndex(self.wire_order()[i])];
        CWire { id: i as i32, x: self.pin_numbers()[wire.0], y: self.pin_numbers()[wire.1] }
    }

    /// The netlist as it is drawn.
    pub open spec fn snapshot(self) -> CGraphView {
        CGraphView {
            modules: Seq::new(self.module_order().len(), |i: int| self.drawn_module(i)),
            wires: Seq::new(self.wire_order().len(), |i: int| self.drawn_wire(i)),
        }
    }

    /// Whether the modules, the listed pins and the wires can each be counted
    /// in 32 bits.
    pub open spec fn numbers_fit(self) -> bool {
        &&& self.module_order().len() <= i32::MAX
        &&& self.listed_pins(self.module_order()).len() <= i32::MAX
        &&& self.wire_order().len() <= i32::MAX
    }

    /// The pins listed by one more module are the pins listed before and then
    /// the pins of that module.
    pub proof fn lemma_listed_pins_step(self, modules: Seq<Handle>, i: int)
        requires
            0 <= i < modules.len(),
        ensures
            self.listed_pins(modules.take(i + 1)) == self.listed_pins(modules.take(i))
                + self.modules[ModuleIndex(modules[i])].pins(),
    {
        assert(modules.take(i + 1).drop_last() == modules.take(i));
    }

    /// In a consistent netlist, a pin listed by live modules is a live pin
    /// whose parent is one of them.
    pub proof fn lemma_listed_pins_owned(self, modules: Seq<Handle>, p: PinIndex)
        requires
            self.core_wf(),
            forall|i: int|
                0 <= i < modules.len() ==> self.modules.contains_key(
                    ModuleIndex(#[trigger] modules[i]),
                ),
            self.listed_pins(modules).contains(p),
        ensures
            self.pins.contains_key(p),
            modules.contains(self.pins[p].parent.0),
            self.modules[self.pins[p].parent].owns(p),
        decreases modules.len(),
    {
        if modules.len() > 0 {
            let front = modules.drop_last();
            let last = ModuleIndex(modules.last());
            let m = self.modules[last];
            lemma_concat_contains(self.listed_pins(front), m.pins(), p);
            if self.listed_pins(front).contains(p) {
                self.lemma_listed_pins_owned(front, p);
                let i = choose|i: int| 0 <= i < front.len() && front[i] == self.pins[p].parent.0;
                assert(modules[i] == front[i]);
            } else {
                lemma_concat_contains(m.inputs, m.outputs, p);
                assert(self.modules.contains_key(ModuleIndex(modules[modules.len() - 1])));
                if m.inputs.contains(p) {
                    let i = choose|i: int| 0 <= i < m.inputs.len() && m.inputs[i] == p;
                    assert(self.owned_as(last, m.inputs[i], InterconnectDirection::Input));
                } else {
                    let i = choose|i: int| 0 <= i < m.outputs.len() && m.outputs[i] == p;
                    assert(self.owned_as(last, m.outputs[i], InterconnectDirection::Output));
                }
                assert(modules[modules.len() - 1] == self.pins[p].parent.0);
            }
        }
    }

    /// In a consistent netlist, no pin is listed twice by different live
    /// modules, nor twice by one.
    pub proof fn lemma_listed_pins_distinct(self, modules: Seq<Handle>)
        requires
            self.core_wf(),
            modules.no_duplicates(),
            forall|i: int|
                0 <= i < modules.len() ==> self.modules.contains_key(
                    ModuleIndex(#[trigger] modules[i]),
                ),
        ensures
            self.listed_pins(modules).no_duplicates(),
        decreases modules.len(),
    {
        if modules.len() > 0 {
            let front = modules.drop_last();
            let last = ModuleIndex(modules.last());
            let m = self.modules[last];
            let before = self.listed_pins(front);
            let own = m.pins();
            let all = self.listed_pins(modules);
            self.lemma_listed_pins_distinct(front);
            assert(self.modules.contains_key(ModuleIndex(modules[modules.len() - 1])));
            assert forall|i: int| 0 <= i < own.len() implies self.pins.contains_key(
                #[trigger] own[i],
            ) && self.pins[own[i]].parent == last && (i < m.inputs.len()
                <==> self.pins[own[i]].is_input()) by {
                if i < m.inputs.len() {
                    assert(self.owned_as(last, m.inputs[i], InterconnectDirection::Input));
                } else {
                    assert(self.owned_as(
                        last,
                        m.outputs[i - m.inputs.len()],
                        InterconnectDirection::Output,
                    ));
                }
            }
            assert forall|i: int, j: int| 0 <= i < all.len() && 0 <= j < all.len() && i != j implies all[i]
                != all[j] by {
                if i < before.len() && j < before.len() {
                } else if i >= before.len() && j >= before.len() {
                    let a = i - before.len();
                    let b = j - before.len();
                    assert(all[i] == own[a] && all[j] == own[b]);
                    if a < m.inputs.len() && b < m.inputs.len() {
                        assert(m.inputs[a] != m.inputs[b]);
                    } else if a >= m.inputs.len() && b >= m.inputs.len() {
                        assert(m.outputs[a - m.inputs.len()] != m.outputs[b - m.inputs.len()]);
                    }
                } else {
                    let (lo, hi) = if i < j {
                        (i, j)
                    } else {
                        (j, i)
                    };
                    assert(all[lo] == before[lo]);
                    assert(all[hi] == own[hi - before.len()]);
                    assert(before.contains(before[lo]));
                    self.lemma_listed_pins_owned(front, before[lo]);
                    let parent = self.pins[before[lo]].parent.0;
                    let k = choose|k: int| 0 <= k < front.len() && front[k] == parent;
                    assert(modules[k] == front[k]);
                }
            }
        }
    }

    /// In a consistent netlist, the modules in their enumeration list every
    /// live pin.
    pub proof fn lemma_listed_pins_complete(self, p: PinIndex)
        requires
            self.wf(),
            is_slot_order(self.module_order(), self.module_handles()),
            self.pins.contains_key(p),
        ensures
            self.listed_pins(self.module_order()).contains(p),
    {
        let order = self.module_order();
        assert(self.listed(p));
        let parent = self.pins[p].parent;
        assert(self.module_handles().contains(parent.0));
        assert(order.contains(parent.0));
        let i = choose|i: int| 0 <= i < order.len() && order[i] == parent.0;
        self.lemma_listed_pins_of_member(order, i, p);
    }

    /// What a module lists is among what a list of modules with it lists.
    pub proof fn lemma_listed_pins_of_member(self, modules: Seq<Handle>, i: int, p: PinIndex)
        requires
            0 <= i < modules.len(),
            self.modules[ModuleIndex(modules[i])].owns(p),
        ensures
            self.listed_pins(modules).contains(p),
        decreases modules.len(),
    {
        let front = modules.drop_last();
        let m = self.modules[ModuleIndex(modules.last())];
        lemma_concat_contains(self.listed_pins(front), m.pins(), p);
        if i < modules.len() - 1 {
            assert(front[i] == modules[i]);
            self.lemma_listed_pins_of_member(front, i, p);
        } else {
            lemma_concat_contains(m.inputs, m.outputs, p);
        }
    }
}

} // verus!
