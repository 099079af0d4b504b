//! Stable handles into the arenas of a netlist.

use vstd::prelude::*;
use vstd::string::*;
use crate::text::{decimal, decimal_digits};

verus! {

/// A slot of an arena together with the generation in which the slot was filled.
///
/// Two handles are equal when both parts are equal. A handle whose generation
/// differs from that of the value now in its slot does not resolve.
#[derive(Clone, Copy, Debug, PartialEq, Eq, Hash, Structural)]
pub struct Handle {
    pub slot: usize,
    pub generation: u64,
}

impl Handle {
    /// The handle of slot `slot` in generation `generation`.
    pub fn from_raw_parts(slot: usize, generation: u64) -> (h: Handle)
        ensures
            h.slot == slot,
            h.generation == generation,
    {
        Handle { slot, generation }
    }

    /// The slot and the generation of the handle.
    pub fn into_raw_parts(self) -> (parts: (usize, u64))
        ensures
            parts.0 == self.slot,
            parts.1 == self.generation,
    {
        (self.slot, self.generation)
    }

    /// The handle as it is shown: `Index:`, the slot, `, Generation:` and the
    /// generation, both in decimal digits.
    pub open spec fn text(self) -> Seq<char> {
        "Index:"@ + decimal_digits(self.slot as nat) + ", Generation:"@ + decimal_digits(
            self.generation as nat,
        )
    }

    /// The handle as it is shown.
    pub fn to_string(&self) -> (text: String)
        ensures
            text@ == self.text(),
    {
        let mut text = String::from_str("Index:");
        let slot = decimal(self.slot as u64);
        text.append(slot.as_str());
        text.append(", Generation:");
        let generation = decimal(self.generation);
        text.append(generation.as_str());
        text
    }
}

/// Handle of a pin.
#[derive(Clone, Copy, Debug, PartialEq, Eq, Hash, Structural)]
pub struct PinIndex(pub Handle);

impl PinIndex {
    /// The handle as it is shown.
    pub fn to_string(&self) -> (text: String)
        ensures
            text@ == self.0.text(),
    {
        self.0.to_string()
    }
}

/// Handle of a module.
#[derive(Clone, Copy, Debug, PartialEq, Eq, Hash, Structural)]
pub struct ModuleIndex(pub Handle);

impl ModuleIndex {
    /// The handle as it is shown.
    pub fn to_string(&self) -> (text: String)
        ensures
            text@ == self.0.text(),
    {
        self.0.to_string()
    }
}

/// Handle of a wire.
#[derive(Clone, Copy, Debug, PartialEq, Eq, Hash, Structural)]
pub struct WireIndex(pub Handle);

impl WireIndex {
    /// The handle as it is shown.
    pub fn to_string(&self) -> (text: String)
        ensures
            text@ == self.0.text(),
    {
        self.0.to_string()
    }
}

/// Whether no handle in `live` has the slot of `h`.
pub open spec fn slot_is_free(live: Set<Handle>, h: Handle) -> bool {
    forall|k: Handle| #[trigger] live.contains(k) ==> k.slot != h.slot
}

/// Whether `order` lists exactly the handles in `live`, by ascending slot.
pub open spec fn is_slot_order(order: Seq<Handle>, live: Set<Handle>) -> bool {
    &&& forall|i: int, j: int| 0 <= i < j < order.len() ==> order[i].slot < order[j].slot
    &&& forall|h: Handle| order.contains(h) <==> live.contains(h)
}

/// The handles in `live` by ascending slot, where no two of them share a slot
/// and there are finitely many.
pub open spec fn slot_order(live: Set<Handle>) -> Seq<Handle> {
    choose|order: Seq<Handle>| is_slot_order(order, live)
}

/// Two lists of the same handles by ascending slot agree up to the length of
/// the shorter.
proof fn lemma_slot_order_agrees(a: Seq<Handle>, b: Seq<Handle>, live: Set<Handle>, i: int)
    requires
        is_slot_order(a, live),
        is_slot_order(b, live),
        0 <= i < a.len(),
    ensures
        i < b.len(),
        a[i] == b[i],
    decreases i,
{
    assert forall|k: int| 0 <= k < i implies k < b.len() && a[k] == b[k] by {
        lemma_slot_order_agrees(a, b, live, k);
    }
    // Where `a[i]` stands in `b`.
    assert(a.contains(a[i]));
    assert(b.contains(a[i]));
    let j = choose|j: int| 0 <= j < b.len() && b[j] == a[i];
    if j < i {
        assert(a[j] == b[j]);
    } else if j > i {
        // Then `b[i]` has a smaller slot than `a[i]`, and stands in `a` too.
        assert(b.contains(b[i]));
        assert(a.contains(b[i]));
        let k = choose|k: int| 0 <= k < a.len() && a[k] == b[i];
        if k < i {
            assert(a[k] == b[k]);
        }
    }
}

/// There is one way to list given handles by ascending slot.
pub proof fn lemma_slot_order_unique(a: Seq<Handle>, b: Seq<Handle>, live: Set<Handle>)
    requires
        is_slot_order(a, live),
        is_slot_order(b, live),
    ensures
        a == b,
{
    assert forall|i: int| 0 <= i < a.len() implies i < b.len() && a[i] == b[i] by {
        lemma_slot_order_agrees(a, b, live, i);
    }
    assert forall|i: int| 0 <= i < b.len() implies i < a.len() && b[i] == a[i] by {
        lemma_slot_order_agrees(b, a, live, i);
    }
    if a.len() < b.len() {
        lemma_slot_order_agrees(b, a, live, a.len() as int);
    }
    if b.len() < a.len() {
        lemma_slot_order_agrees(a, b, live, b.len() as int);
    }
    assert(a =~= b);
}

/// A list of given handles by ascending slot is the list that
/// [`slot_order`] names.
pub proof fn lemma_slot_order_is(order: Seq<Handle>, live: Set<Handle>)
    requires
        is_slot_order(order, live),
    ensures
        order == slot_order(live),
        order.no_duplicates(),
{
    lemma_slot_order_unique(order, slot_order(live), live);
}

} // verus!
