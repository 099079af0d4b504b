//! The three arenas of a netlist, as the `generational_arena` crate provides
//! them.
//!
//! Apart from [`wire_avoids`], nothing in this file is proved. Each function
//! makes one call into the crate, and its contract says what the crate's
//! source shows of that call, over the map from live handles to values that
//! an arena stands for.
//!
//! Beside its values an arena keeps a generation: a 64-bit count that goes
//! up by one with each removal. A new handle is stamped with it, which is why
//! a handle, once removed, is not given out again. The contracts of the
//! removing functions do not admit the removal that would overflow the
//! count.

use vstd::prelude::*;
use generational_arena::{Arena, Index};
use crate::handle::{is_slot_order, slot_is_free, Handle, PinIndex};
use crate::module::Module;
use crate::pin::Pin;

verus! {

/// `generational_arena::Arena`, opaque to the verifier.
#[verifier::external_type_specification]
#[verifier::external_body]
#[verifier::reject_recursive_types(T)]
pub struct ExArena<T>(Arena<T>);

/// The modules that an arena holds, by handle.
pub uninterp spec fn module_slots(arena: Arena<Module>) -> Map<Handle, Module>;

/// The generation that an arena of modules gives its next handle. It goes up
/// by one with each removal.
pub uninterp spec fn module_generation(arena: Arena<Module>) -> u64;

/// The pins that an arena holds, by handle.
pub uninterp spec fn pin_slots(arena: Arena<Pin>) -> Map<Handle, Pin>;

/// The generation that an arena of pins gives its next handle. It goes up by
/// one with each removal.
pub uninterp spec fn pin_generation(arena: Arena<Pin>) -> u64;

/// The wires that an arena holds, by handle: the input pin, then the output pin.
pub uninterp spec fn wire_slots(arena: Arena<(PinIndex, PinIndex)>) -> Map<
    Handle,
    (PinIndex, PinIndex),
>;

/// The generation that an arena of wires gives its next handle. It goes up
/// by one with each removal.
pub uninterp spec fn wire_generation(arena: Arena<(PinIndex, PinIndex)>) -> u64;

// ---------------------------------------------------------------------------
// Modules
// ---------------------------------------------------------------------------

/// `Arena::new`: an arena that holds nothing.
#[verifier::external_body]
pub(crate) fn new_module_arena() -> (arena: Arena<Module>)
    ensures
        module_slots(arena) == (Map::<Handle, Module>::empty()),
        module_generation(arena) == 0,
{
    Arena::new()
}

/// `Arena::insert`: stores `module` in a slot that no live handle has, and
/// returns its handle, which is of the arena's generation. Every other handle
/// resolves as before, and the generation stays.
#[verifier::external_body]
pub(crate) fn insert_module(arena: &mut Arena<Module>, module: Module) -> (h: Handle)
    ensures
        slot_is_free(module_slots(*old(arena)).dom(), h),
        module_slots(*final(arena)) == module_slots(*old(arena)).insert(h, module),
        h.generation == module_generation(*old(arena)),
        module_generation(*final(arena)) == module_generation(*old(arena)),
{
    let (slot, generation) = arena.insert(module).into_raw_parts();
    Handle { slot, generation }
}

/// `Arena::remove`: takes out and returns the module that `h` resolves to, and
/// the generation goes up by one. A handle that does not resolve gives `None`
/// and changes nothing.
#[verifier::external_body]
pub(crate) fn remove_module(arena: &mut Arena<Module>, h: Handle) -> (taken: Option<Module>)
    requires
        module_slots(*old(arena)).contains_key(h) ==> module_generation(*old(arena)) < u64::MAX,
    ensures
        taken == module_slots(*old(arena)).get(h),
        module_slots(*final(arena)) == module_slots(*old(arena)).remove(h),
        module_generation(*final(arena)) == module_generation(*old(arena)) + if taken.is_some() {
            1int
        } else {
            0int
        },
{
    arena.remove(Index::from_raw_parts(h.slot, h.generation))
}

/// `Arena::get`: the module that `h` resolves to, if it resolves.
#[verifier::external_body]
pub(crate) fn get_module(arena: &Arena<Module>, h: Handle) -> (found: Option<&Module>)
    ensures
        (match found {
            Some(module) => module_slots(*arena).contains_key(h) && *module == module_slots(
                *arena,
            )[h],
            None => !module_slots(*arena).contains_key(h),
        }),
{
    arena.get(Index::from_raw_parts(h.slot, h.generation))
}

/// `Arena::get_mut`: the module that `h` resolves to, if it resolves, to be
/// changed in place. Whatever the caller leaves behind the reference is what
/// `h` resolves to afterwards; nothing else changes.
#[verifier::external_body]
pub(crate) fn get_module_mut(arena: &mut Arena<Module>, h: Handle) -> (found: Option<&mut Module>)
    ensures
        module_generation(*final(arena)) == module_generation(*old(arena)),
        (match found {
            Some(module) => module_slots(*old(arena)).contains_key(h) && *module == module_slots(
                *old(arena),
            )[h] && module_slots(*final(arena)) == module_slots(*old(arena)).insert(
                h,
                *final(module),
            ),
            None => !module_slots(*old(arena)).contains_key(h) && module_slots(*final(arena))
                == module_slots(*old(arena)),
        }),
{
    arena.get_mut(Index::from_raw_parts(h.slot, h.generation))
}

/// `Arena::iter`, keeping the handle of each item: the live handles by
/// ascending slot, which is the order in which the arena walks its slots.
#[verifier::external_body]
pub(crate) fn module_handles(arena: &Arena<Module>) -> (handles: Vec<Handle>)
    ensures
        is_slot_order(handles@, module_slots(*arena).dom()),
{
    let mut handles = Vec::new();
    for (index, _) in arena.iter() {
        let (slot, generation) = index.into_raw_parts();
        handles.push(Handle { slot, generation });
    }
    handles
}

// ---------------------------------------------------------------------------
// Pins
// ---------------------------------------------------------------------------

/// `Arena::new`: an arena that holds nothing.
#[verifier::external_body]
pub(crate) fn new_pin_arena() -> (arena: Arena<Pin>)
    ensures
        pin_slots(arena) == (Map::<Handle, Pin>::empty()),
        pin_generation(arena) == 0,
{
    Arena::new()
}

/// `Arena::insert`: stores `pin` in a slot that no live handle has, and
/// returns its handle, which is of the arena's generation. Every other handle
/// resolves as before, and the generation stays.
#[verifier::external_body]
pub(crate) fn insert_pin(arena: &mut Arena<Pin>, pin: Pin) -> (h: Handle)
    ensures
        slot_is_free(pin_slots(*old(arena)).dom(), h),
        pin_slots(*final(arena)) == pin_slots(*old(arena)).insert(h, pin),
        h.generation == pin_generation(*old(arena)),
        pin_generation(*final(arena)) == pin_generation(*old(arena)),
{
    let (slot, generation) = arena.insert(pin).into_raw_parts();
    Handle { slot, generation }
}

/// `Arena::remove`: takes out and returns the pin that `h` resolves to, and
/// the generation goes up by one. A handle that does not resolve gives `None`
/// and changes nothing.
#[verifier::external_body]
pub(crate) fn remove_pin(arena: &mut Arena<Pin>, h: Handle) -> (taken: Option<Pin>)
    requires
        pin_slots(*old(arena)).contains_key(h) ==> pin_generation(*old(arena)) < u64::MAX,
    ensures
        taken == pin_slots(*old(arena)).get(h),
        pin_slots(*final(arena)) == pin_slots(*old(arena)).remove(h),
        pin_generation(*final(arena)) == pin_generation(*old(arena)) + if taken.is_some() {
            1int
        } else {
            0int
        },
{
    arena.remove(Index::from_raw_parts(h.slot, h.generation))
}

/// `Arena::get`: the pin that `h` resolves to, if it resolves.
#[verifier::external_body]
pub(crate) fn get_pin(arena: &Arena<Pin>, h: Handle) -> (found: Option<&Pin>)
    ensures
        (match found {
            Some(pin) => pin_slots(*arena).contains_key(h) && *pin == pin_slots(*arena)[h],
            None => !pin_slots(*arena).contains_key(h),
        }),
{
    arena.get(Index::from_raw_parts(h.slot, h.generation))
}

/// `Arena::get_mut`: the pin that `h` resolves to, if it resolves, to be
/// changed in place. Whatever the caller leaves behind the reference is what
/// `h` resolves to afterwards; nothing else changes.
#[verifier::external_body]
pub(crate) fn get_pin_mut(arena: &mut Arena<Pin>, h: Handle) -> (found: Option<&mut Pin>)
    ensures
        pin_generation(*final(arena)) == pin_generation(*old(arena)),
        (match found {
            Some(pin) => pin_slots(*old(arena)).contains_key(h) && *pin == pin_slots(
                *old(arena),
            )[h] && pin_slots(*final(arena)) == pin_slots(*old(arena)).insert(h, *final(pin)),
            None => !pin_slots(*old(arena)).contains_key(h) && pin_slots(*final(arena))
                == pin_slots(*old(arena)),
        }),
{
    arena.get_mut(Index::from_raw_parts(h.slot, h.generation))
}

/// `Arena::get2_mut`: the pins that two different handles resolve to, both to
/// be changed in place.
///
/// The crate panics when the two handles are equal, so they must differ. When
/// they differ only in their generation, the crate looks up the one of the
/// later generation alone and gives `None` for the other. In every other case
/// each side is what `Arena::get_mut` gives for its handle.
#[verifier::external_body]
pub(crate) fn get_two_pins_mut(arena: &mut Arena<Pin>, a: Handle, b: Handle) -> (found: (
    Option<&mut Pin>,
    Option<&mut Pin>,
))
    requires
        a != b,
    ensures
        pin_generation(*final(arena)) == pin_generation(*old(arena)),
        found.0.is_some() <==> (pin_slots(*old(arena)).contains_key(a) && !(a.slot == b.slot
            && a.generation < b.generation)),
        found.1.is_some() <==> (pin_slots(*old(arena)).contains_key(b) && !(a.slot == b.slot
            && b.generation < a.generation)),
        found.0.is_some() ==> *found.0.unwrap() == pin_slots(*old(arena))[a],
        found.1.is_some() ==> *found.1.unwrap() == pin_slots(*old(arena))[b],
        (match found {
            (Some(x), Some(y)) => pin_slots(*final(arena)) == pin_slots(*old(arena)).insert(
                a,
                *final(x),
            ).insert(b, *final(y)),
            (Some(x), None) => pin_slots(*final(arena)) == pin_slots(*old(arena)).insert(
                a,
                *final(x),
            ),
            (None, Some(y)) => pin_slots(*final(arena)) == pin_slots(*old(arena)).insert(
                b,
                *final(y),
            ),
            (None, None) => pin_slots(*final(arena)) == pin_slots(*old(arena)),
        }),
{
    arena.get2_mut(
        Index::from_raw_parts(a.slot, a.generation),
        Index::from_raw_parts(b.slot, b.generation),
    )
}

/// `Arena::iter`, keeping the handle of each item: the live handles by
/// ascending slot, which is the order in which the arena walks its slots.
#[verifier::external_body]
pub(crate) fn pin_handles(arena: &Arena<Pin>) -> (handles: Vec<Handle>)
    ensures
        is_slot_order(handles@, pin_slots(*arena).dom()),
{
    let mut handles = Vec::new();
    for (index, _) in arena.iter() {
        let (slot, generation) = index.into_raw_parts();
        handles.push(Handle { slot, generation });
    }
    handles
}

// ---------------------------------------------------------------------------
// Wires
// ---------------------------------------------------------------------------

/// Whether neither end of `wire` is `pin`.
pub fn wire_avoids(wire: &(PinIndex, PinIndex), pin: PinIndex) -> (clear: bool)
    ensures
        clear == (wire.0 != pin && wire.1 != pin),
{
    wire.0 != pin && wire.1 != pin
}

/// `Arena::new`: an arena that holds nothing.
#[verifier::external_body]
pub(crate) fn new_wire_arena() -> (arena: Arena<(PinIndex, PinIndex)>)
    ensures
        wire_slots(arena) == (Map::<Handle, (PinIndex, PinIndex)>::empty()),
        wire_generation(arena) == 0,
{
    Arena::new()
}

/// `Arena::insert`: stores `wire` in a slot that no live handle has, and
/// returns its handle, which is of the arena's generation. Every other handle
/// resolves as before, and the generation stays.
#[verifier::external_body]
pub(crate) fn insert_wire(arena: &mut Arena<(PinIndex, PinIndex)>, wire: (PinIndex, PinIndex)) -> (h:
    Handle)
    ensures
        slot_is_free(wire_slots(*old(arena)).dom(), h),
        wire_slots(*final(arena)) == wire_slots(*old(arena)).insert(h, wire),
        h.generation == wire_generation(*old(arena)),
        wire_generation(*final(arena)) == wire_generation(*old(arena)),
{
    let (slot, generation) = arena.insert(wire).into_raw_parts();
    Handle { slot, generation }
}

/// `Arena::remove`: takes out and returns the wire that `h` resolves to, and
/// the generation goes up by one. A handle that does not resolve gives `None`
/// and changes nothing.
#[verifier::external_body]
pub(crate) fn remove_wire(arena: &mut Arena<(PinIndex, PinIndex)>, h: Handle) -> (taken: Option<
    (PinIndex, PinIndex),
>)
    requires
        wire_slots(*old(arena)).contains_key(h) ==> wire_generation(*old(arena)) < u64::MAX,
    ensures
        taken == wire_slots(*old(arena)).get(h),
        wire_slots(*final(arena)) == wire_slots(*old(arena)).remove(h),
        wire_generation(*final(arena)) == wire_generation(*old(arena)) + if taken.is_some() {
            1int
        } else {
            0int
        },
{
    arena.remove(Index::from_raw_parts(h.slot, h.generation))
}

/// `Arena::get`: the wire that `h` resolves to, if it resolves.
#[verifier::external_body]
pub(crate) fn get_wire(arena: &Arena<(PinIndex, PinIndex)>, h: Handle) -> (found: Option<
    &(PinIndex, PinIndex),
>)
    ensures
        (match found {
            Some(wire) => wire_slots(*arena).contains_key(h) && *wire == wire_slots(*arena)[h],
            None => !wire_slots(*arena).contains_key(h),
        }),
{
    arena.get(Index::from_raw_parts(h.slot, h.generation))
}

/// `Arena::retain`, keeping the wires that [`wire_avoids`] accepts: every wire
/// with an end at `pin` is taken out as `Arena::remove` takes it out, so the
/// generation goes up by as many as there are wires fewer. Every other handle
/// resolves as before.
#[verifier::external_body]
pub(crate) fn retain_wires_avoiding(arena: &mut Arena<(PinIndex, PinIndex)>, pin: PinIndex)
    requires
        wire_slots(*old(arena)).dom().finite(),
        wire_generation(*old(arena)) + wire_slots(*old(arena)).len() <= u64::MAX,
    ensures
        wire_generation(*final(arena)) + wire_slots(*final(arena)).len() == wire_generation(
            *old(arena),
        ) + wire_slots(*old(arena)).len(),
        wire_slots(*final(arena)) == wire_slots(*old(arena)).restrict(
            Set::new(
                |h: Handle|
                    wire_slots(*old(arena)).contains_key(h) && wire_slots(*old(arena))[h].0 != pin
                        && wire_slots(*old(arena))[h].1 != pin,
            ),
        ),
{
    arena.retain(|_, wire| wire_avoids(wire, pin))
}

/// `Arena::iter`, keeping the handle of each item: the live handles by
/// ascending slot, which is the order in which the arena walks its slots.
#[verifier::external_body]
pub(crate) fn wire_handles(arena: &Arena<(PinIndex, PinIndex)>) -> (handles: Vec<Handle>)
    ensures
        is_slot_order(handles@, wire_slots(*arena).dom()),
{
    let mut handles = Vec::new();
    for (index, _) in arena.iter() {
        let (slot, generation) = index.into_raw_parts();
        handles.push(Handle { slot, generation });
    }
    handles
}

} // verus!
