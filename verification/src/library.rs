//! Prefab library blocks: the shape of a module without its place in a
//! netlist, as it is stored outside the program.

use vstd::prelude::*;
use vstd::seq_lib::seq_to_set_is_finite;
use vstd::set_lib::lemma_set_disjoint_lens;
use crate::graph::lemma_index_of;
use crate::handle::{ModuleIndex, PinIndex, WireIndex};
use crate::kinds::{InterconnectDirection, PinKind};
use crate::model::NetlistView;
use crate::module::ModuleView;
use crate::netlist::Netlist;
use crate::pin::{InterconnectView, PinView};
use crate::pinlist::{lemma_concat_contains, lemma_push_contains};

verus! {

/// A pin of a library block.
#[derive(Debug)]
pub struct LibraryPin {
    pub name: String,
    pub kind: PinKind,
}

/// A library block: a module's name and its pins, inputs and outputs in order.
#[derive(Debug)]
pub struct LibraryModule {
    pub name: String,
    pub inputs: Vec<LibraryPin>,
    pub outputs: Vec<LibraryPin>,
}

/// The mathematical value of a [`LibraryPin`].
#[verifier::ext_equal]
pub ghost struct LibraryPinView {
    pub name: Seq<char>,
    pub kind: PinKind,
}

/// The mathematical value of a [`LibraryModule`].
#[verifier::ext_equal]
pub ghost struct LibraryModuleView {
    pub name: Seq<char>,
    pub inputs: Seq<LibraryPinView>,
    pub outputs: Seq<LibraryPinView>,
}

impl View for LibraryPin {
    type V = LibraryPinView;

    open spec fn view(&self) -> LibraryPinView {
        LibraryPinView { name: self.name@, kind: self.kind }
    }
}

impl View for LibraryModule {
    type V = LibraryModuleView;

    open spec fn view(&self) -> LibraryModuleView {
        LibraryModuleView {
            name: self.name@,
            inputs: self.inputs@.map_values(|p: LibraryPin| p@),
            outputs: self.outputs@.map_values(|p: LibraryPin| p@),
        }
    }
}

impl PinView {
    /// The pin as a pin of a library block.
    pub open spec fn library_pin(self) -> LibraryPinView {
        LibraryPinView { name: self.name, kind: self.kind }
    }
}

impl LibraryPinView {
    /// The pin as an unlinked pin of direction `direction` on `module`.
    pub open spec fn placed(self, module: ModuleIndex, direction: InterconnectDirection) -> PinView {
        PinView {
            name: self.name,
            kind: self.kind,
            interconnect: InterconnectView::unlinked(direction),
            parent: module,
        }
    }
}

impl NetlistView {
    /// The pins `pins` as pins of a library block.
    pub open spec fn library_pins(self, pins: Seq<PinIndex>) -> Seq<LibraryPinView> {
        Seq::new(pins.len(), |i: int| self.pins[pins[i]].library_pin())
    }

    /// Module `module` as a library block.
    pub open spec fn library_module(self, module: ModuleIndex) -> LibraryModuleView {
        LibraryModuleView {
            name: self.modules[module].name,
            inputs: self.library_pins(self.modules[module].inputs),
            outputs: self.library_pins(self.modules[module].outputs),
        }
    }

    /// Whether `inputs` and `outputs` can be the handles of the pins of a new
    /// copy of `block`: one handle for each pin, none used twice, each of
    /// the generation of the next pin handle, and none that resolves.
    pub open spec fn fits(
        self,
        block: LibraryModuleView,
        inputs: Seq<PinIndex>,
        outputs: Seq<PinIndex>,
    ) -> bool {
        &&& inputs.len() == block.inputs.len()
        &&& outputs.len() == block.outputs.len()
        &&& (inputs + outputs).no_duplicates()
        &&& forall|i: int|
            0 <= i < inputs.len() + outputs.len() ==> !self.pins.contains_key(
                #[trigger] (inputs + outputs)[i],
            ) && (inputs + outputs)[i].0.generation == self.pin_epoch()
    }

    /// The netlist with a new module `module` that is a copy of `block`, its
    /// pins under the handles `inputs` and `outputs`.
    pub open spec fn with_library_module(
        self,
        module: ModuleIndex,
        block: LibraryModuleView,
        inputs: Seq<PinIndex>,
        outputs: Seq<PinIndex>,
    ) -> NetlistView {
        NetlistView {
            modules: self.modules.insert(
                module,
                ModuleView {
                    name: block.name,
                    inputs,
                    outputs,
                    id: self.next_module_id,
                    position: (0u32, 0u32),
                },
            ),
            pins: Map::new(
                |p: PinIndex| self.pins.contains_key(p) || inputs.contains(p) || outputs.contains(p),
                |p: PinIndex|
                    if inputs.contains(p) {
                        block.inputs[inputs.index_of(p)].placed(module, InterconnectDirection::Input)
                    } else if outputs.contains(p) {
                        block.outputs[outputs.index_of(p)].placed(
                            module,
                            InterconnectDirection::Output,
                        )
                    } else {
                        self.pins[p]
                    },
            ),
            wires: self.wires,
            next_module_id: (self.next_module_id + 1) as i32,
            pins_made: (self.pins_made + inputs.len() + outputs.len()) as u64,
            wires_made: self.wires_made,
        }
    }
}

impl NetlistView {
    /// Adding one more pin to a module that is being copied from a block
    /// gives the copy of the block with that pin at the end of its list.
    pub proof fn lemma_library_module_grows(
        self,
        module: ModuleIndex,
        block: LibraryModuleView,
        inputs: Seq<PinIndex>,
        outputs: Seq<PinIndex>,
        pin: PinIndex,
        shape: LibraryPinView,
        direction: InterconnectDirection,
    )
        requires
            self.fits(block, inputs, outputs),
            !self.pins.contains_key(pin),
            !inputs.contains(pin),
            !outputs.contains(pin),
            pin.0.generation == self.pin_epoch(),
            direction == InterconnectDirection::Input ==> outputs.len() == 0,
            self.pins_made + inputs.len() + outputs.len() < u64::MAX,
        ensures
            ({
                let grown = match direction {
                    InterconnectDirection::Input => LibraryModuleView {
                        inputs: block.inputs.push(shape),
                        ..block
                    },
                    InterconnectDirection::Output => LibraryModuleView {
                        outputs: block.outputs.push(shape),
                        ..block
                    },
                };
                let ins = if direction == InterconnectDirection::Input {
                    inputs.push(pin)
                } else {
                    inputs
                };
                let outs = if direction == InterconnectDirection::Output {
                    outputs.push(pin)
                } else {
                    outputs
                };
                &&& self.fits(grown, ins, outs)
                &&& self.with_library_module(module, block, inputs, outputs).with_pin(
                    pin,
                    module,
                    shape.name,
                    shape.kind,
                    direction,
                ) == self.with_library_module(module, grown, ins, outs)
            }),
    {
        let grown = match direction {
            InterconnectDirection::Input => LibraryModuleView {
                inputs: block.inputs.push(shape),
                ..block
            },
            InterconnectDirection::Output => LibraryModuleView {
                outputs: block.outputs.push(shape),
                ..block
            },
        };
        let ins = if direction == InterconnectDirection::Input {
            inputs.push(pin)
        } else {
            inputs
        };
        let outs = if direction == InterconnectDirection::Output {
            outputs.push(pin)
        } else {
            outputs
        };
        let old_all = inputs + outputs;
        let all = ins + outs;
        assert(all == old_all.push(pin));
        assert forall|i: int, j: int| 0 <= i < all.len() && 0 <= j < all.len() && i != j implies all[i]
            != all[j] by {
            lemma_concat_contains(inputs, outputs, pin);
            if i < old_all.len() {
                assert(old_all[i] == all[i]);
            }
            if j < old_all.len() {
                assert(old_all[j] == all[j]);
            }
        }
        assert forall|i: int| 0 <= i < all.len() implies !self.pins.contains_key(
            #[trigger] all[i],
        ) && all[i].0.generation == self.pin_epoch() by {
            if i < old_all.len() {
                assert(old_all[i] == all[i]);
            }
        }
        assert(self.fits(grown, ins, outs));
        let before = self.with_library_module(module, block, inputs, outputs);
        let stepped = before.with_pin(pin, module, shape.name, shape.kind, direction);
        let target = self.with_library_module(module, grown, ins, outs);
        assert(stepped.modules =~= target.modules);
        self.lemma_fits_lists(block, inputs, outputs);
        self.lemma_fits_lists(grown, ins, outs);
        assert forall|p: PinIndex|
            stepped.pins.contains_key(p) <==> target.pins.contains_key(p) by {
            lemma_push_contains(inputs, pin, p);
            lemma_push_contains(outputs, pin, p);
        }
        assert forall|p: PinIndex| #[trigger] stepped.pins.contains_key(p) implies stepped.pins[p]
            == target.pins[p] by {
            lemma_push_contains(inputs, pin, p);
            lemma_push_contains(outputs, pin, p);
            if p == pin {
                if direction == InterconnectDirection::Input {
                    assert(ins[inputs.len() as int] == pin);
                    lemma_index_of(ins, inputs.len() as int);
                } else {
                    assert(outs[outputs.len() as int] == pin);
                    lemma_index_of(outs, outputs.len() as int);
                }
            } else if inputs.contains(p) {
                let i = inputs.index_of(p);
                lemma_index_of(inputs, i);
                assert(ins[i] == p);
                lemma_index_of(ins, i);
            } else if outputs.contains(p) {
                let i = outputs.index_of(p);
                lemma_index_of(outputs, i);
                assert(outs[i] == p);
                lemma_index_of(outs, i);
            }
        }
        assert(stepped.pins =~= target.pins);
    }

    /// Handles that fit a block are two lists without repetitions and without
    /// a common member.
    pub proof fn lemma_fits_lists(
        self,
        block: LibraryModuleView,
        inputs: Seq<PinIndex>,
        outputs: Seq<PinIndex>,
    )
        requires
            self.fits(block, inputs, outputs),
        ensures
            inputs.no_duplicates(),
            outputs.no_duplicates(),
            forall|p: PinIndex| !(inputs.contains(p) && outputs.contains(p)),
            forall|i: int| 0 <= i < inputs.len() ==> !self.pins.contains_key(#[trigger] inputs[i]),
            forall|i: int|
                0 <= i < outputs.len() ==> !self.pins.contains_key(#[trigger] outputs[i]),
    {
        let all = inputs + outputs;
        assert forall|i: int, j: int|
            0 <= i < inputs.len() && 0 <= j < inputs.len() && i != j implies inputs[i]
            != inputs[j] by {
            assert(all[i] == inputs[i] && all[j] == inputs[j]);
        }
        assert forall|i: int, j: int|
            0 <= i < outputs.len() && 0 <= j < outputs.len() && i != j implies outputs[i]
            != outputs[j] by {
            assert(all[inputs.len() + i] == outputs[i] && all[inputs.len() + j] == outputs[j]);
        }
        assert forall|p: PinIndex| !(inputs.contains(p) && outputs.contains(p)) by {
            if inputs.contains(p) && outputs.contains(p) {
                let i = choose|i: int| 0 <= i < inputs.len() && inputs[i] == p;
                let j = choose|j: int| 0 <= j < outputs.len() && outputs[j] == p;
                assert(all[i] == p && all[inputs.len() + j] == p);
            }
        }
        assert forall|i: int| 0 <= i < inputs.len() implies !self.pins.contains_key(
            #[trigger] inputs[i],
        ) by {
            assert(all[i] == inputs[i]);
        }
        assert forall|i: int| 0 <= i < outputs.len() implies !self.pins.contains_key(
            #[trigger] outputs[i],
        ) by {
            assert(all[inputs.len() + i] == outputs[i]);
        }
    }

    /// A block that is copied into a netlist and read back from the new
    /// module is the block that was copied.
    pub proof fn law_library_round_trip(
        self,
        module: ModuleIndex,
        block: LibraryModuleView,
        inputs: Seq<PinIndex>,
        outputs: Seq<PinIndex>,
    )
        requires
            self.fits(block, inputs, outputs),
        ensures
            self.with_library_module(module, block, inputs, outputs).library_module(module)
                == block,
    {
        let after = self.with_library_module(module, block, inputs, outputs);
        let back = after.library_module(module);
        self.lemma_fits_lists(block, inputs, outputs);
        assert forall|i: int| 0 <= i < inputs.len() implies back.inputs[i] == block.inputs[i] by {
            lemma_index_of(inputs, i);
        }
        assert(back.inputs =~= block.inputs);
        assert forall|i: int| 0 <= i < outputs.len() implies back.outputs[i]
            == block.outputs[i] by {
            lemma_index_of(outputs, i);
        }
        assert(back.outputs =~= block.outputs);
    }

    /// Copying a block into a consistent netlist leaves the generation of the
    /// next pin handle where it is, and a pin handle that is retired stays
    /// retired.
    pub proof fn law_library_copy_spares_retired(
        self,
        module: ModuleIndex,
        block: LibraryModuleView,
        inputs: Seq<PinIndex>,
        outputs: Seq<PinIndex>,
        stale: PinIndex,
    )
        requires
            self.wf(),
            self.fits(block, inputs, outputs),
            self.pins_made + inputs.len() + outputs.len() <= u64::MAX,
        ensures
            self.with_library_module(module, block, inputs, outputs).pin_epoch()
                == self.pin_epoch(),
            self.retired_pin(stale) ==> self.with_library_module(
                module,
                block,
                inputs,
                outputs,
            ).retired_pin(stale),
    {
        let after = self.with_library_module(module, block, inputs, outputs);
        let all = inputs + outputs;
        let added = all.to_set();
        seq_to_set_is_finite(all);
        all.unique_seq_to_set();
        assert(after.pins.dom() =~= self.pins.dom() + added) by {
            assert forall|p: PinIndex| all.contains(p) <==> (inputs.contains(p) || outputs.contains(
                p,
            )) by {
                lemma_concat_contains(inputs, outputs, p);
            }
        }
        assert(self.pins.dom().disjoint(added)) by {
            assert forall|p: PinIndex| !(self.pins.dom().contains(p) && added.contains(p)) by {
                if added.contains(p) {
                    let i = choose|i: int| 0 <= i < all.len() && all[i] == p;
                    assert(!self.pins.contains_key(all[i]));
                }
            }
        }
        lemma_set_disjoint_lens(self.pins.dom(), added);
        if self.retired_pin(stale) && added.contains(stale) {
            let i = choose|i: int| 0 <= i < all.len() && all[i] == stale;
            assert(all[i].0.generation == self.pin_epoch());
        }
    }

    /// Copying a block into a netlist leaves every module that was there as
    /// it was, as a library block too.
    pub proof fn law_library_copy_spares_the_rest(
        self,
        module: ModuleIndex,
        block: LibraryModuleView,
        inputs: Seq<PinIndex>,
        outputs: Seq<PinIndex>,
        other: ModuleIndex,
    )
        requires
            self.wf(),
            self.fits(block, inputs, outputs),
            self.modules.contains_key(other),
            other != module,
        ensures
            self.with_library_module(module, block, inputs, outputs).modules[other]
                == self.modules[other],
            self.with_library_module(module, block, inputs, outputs).library_module(other)
                == self.library_module(other),
    {
        let after = self.with_library_module(module, block, inputs, outputs);
        self.lemma_fits_lists(block, inputs, outputs);
        let m = self.modules[other];
        assert forall|i: int| 0 <= i < m.inputs.len() implies after.pins[m.inputs[i]]
            == self.pins[m.inputs[i]] by {
            assert(self.owned_as(other, m.inputs[i], InterconnectDirection::Input));
            let p = m.inputs[i];
            if inputs.contains(p) {
                let k = choose|k: int| 0 <= k < inputs.len() && inputs[k] == p;
                assert(!self.pins.contains_key(inputs[k]));
            }
            if outputs.contains(p) {
                let k = choose|k: int| 0 <= k < outputs.len() && outputs[k] == p;
                assert(!self.pins.contains_key(outputs[k]));
            }
        }
        assert forall|i: int| 0 <= i < m.outputs.len() implies after.pins[m.outputs[i]]
            == self.pins[m.outputs[i]] by {
            assert(self.owned_as(other, m.outputs[i], InterconnectDirection::Output));
            let p = m.outputs[i];
            if inputs.contains(p) {
                let k = choose|k: int| 0 <= k < inputs.len() && inputs[k] == p;
                assert(!self.pins.contains_key(inputs[k]));
            }
            if outputs.contains(p) {
                let k = choose|k: int| 0 <= k < outputs.len() && outputs[k] == p;
                assert(!self.pins.contains_key(outputs[k]));
            }
        }
        assert(after.library_module(other).inputs =~= self.library_module(other).inputs);
        assert(after.library_module(other).outputs =~= self.library_module(other).outputs);
    }
}

impl Netlist {
    /// The pins `pins`, each as a pin of a library block. A handle that does
    /// not resolve is passed over.
    fn library_pins(&self, pins: &[PinIndex]) -> (shapes: Vec<LibraryPin>)
        requires
            forall|i: int| 0 <= i < pins@.len() ==> self@.pins.contains_key(#[trigger] pins@[i]),
        ensures
            shapes@.map_values(|p: LibraryPin| p@) == self@.library_pins(pins@),
    {
        let mut shapes: Vec<LibraryPin> = Vec::new();
        let mut i: usize = 0;
        while i < pins.len()
            invariant
                i <= pins.len(),
                forall|k: int| 0 <= k < pins@.len() ==> self@.pins.contains_key(#[trigger] pins@[k]),
                shapes@.len() == i,
                forall|k: int| 0 <= k < i ==> (#[trigger] shapes@[k])@ == self@.pins[pins@[k]].library_pin(),
            decreases pins.len() - i,
        {
            if let Some(pin) = self.get_pin(pins[i]) {
                shapes.push(LibraryPin { name: pin.name().to_owned(), kind: pin.kind() });
            }
            i += 1;
        }
        assert(shapes@.map_values(|p: LibraryPin| p@) =~= self@.library_pins(pins@));
        shapes
    }

    /// Module `idx` as a library block: its name, and the name and kind of
    /// each of its pins, inputs and outputs in the order of the module's
    /// lists. Gives `None` where `idx` does not resolve.
    pub fn get_library_module(&self, idx: ModuleIndex) -> (block: Option<LibraryModule>)
        requires
            self.wf(),
        ensures
            (match block {
                Some(block) => self@.modules.contains_key(idx) && block@ == self@.library_module(
                    idx,
                ),
                None => !self@.modules.contains_key(idx),
            }),
    {
        let m = self.get_module(idx)?;
        proof {
            assert forall|i: int| 0 <= i < m@.inputs.len() implies self@.pins.contains_key(
                #[trigger] m@.inputs[i],
            ) by {
                assert(self@.owned_as(idx, m@.inputs[i], InterconnectDirection::Input));
            }
            assert forall|i: int| 0 <= i < m@.outputs.len() implies self@.pins.contains_key(
                #[trigger] m@.outputs[i],
            ) by {
                assert(self@.owned_as(idx, m@.outputs[i], InterconnectDirection::Output));
            }
        }
        let inputs = self.library_pins(m.inputs());
        let outputs = self.library_pins(m.outputs());
        Some(LibraryModule { name: m.name().to_owned(), inputs, outputs })
    }

    /// Adds a module that is a copy of `module`: a new module of its name,
    /// then its inputs and then its outputs, in order, as unlinked pins.
    /// Returns the handle of the new module.
    pub fn add_module_from_library(&mut self, module: LibraryModule) -> (idx: ModuleIndex)
        requires
            old(self).wf(),
            old(self)@.next_module_id < i32::MAX,
            old(self)@.pins_made + module@.inputs.len() + module@.outputs.len() <= u64::MAX,
        ensures
            final(self).wf(),
            !old(self)@.modules.contains_key(idx),
            idx.0.generation == old(self)@.module_epoch(),
            old(self)@.fits(
                module@,
                final(self)@.modules[idx].inputs,
                final(self)@.modules[idx].outputs,
            ),
            final(self)@ == old(self)@.with_library_module(
                idx,
                module@,
                final(self)@.modules[idx].inputs,
                final(self)@.modules[idx].outputs,
            ),
            final(self)@.library_module(idx) == module@,
    {
        let ghost before = old(self)@;
        let ghost block = module@;
        let ghost name = module.name@;
        let idx = self.add_module(module.name);
        let ghost empty = LibraryModuleView { name, inputs: Seq::empty(), outputs: Seq::empty() };
        proof {
            assert(self@.pins == before.pins);
            assert((Seq::<PinIndex>::empty() + Seq::<PinIndex>::empty()).len() == 0);
            assert(before.fits(empty, Seq::empty(), Seq::empty()));
            assert(self@ =~= before.with_library_module(idx, empty, Seq::empty(), Seq::empty()));
        }
        let inputs = module.inputs;
        let mut i: usize = 0;
        while i < inputs.len()
            invariant
                i <= inputs.len(),
                self.wf(),
                !before.modules.contains_key(idx),
                before.pins_made + inputs@.len() + module@.outputs.len() <= u64::MAX,
                self@.pin_epoch() == before.pin_epoch(),
                before.fits(
                    LibraryModuleView {
                        name,
                        inputs: inputs@.map_values(|p: LibraryPin| p@).take(i as int),
                        outputs: Seq::empty(),
                    },
                    self@.modules[idx].inputs,
                    Seq::empty(),
                ),
                self@ == before.with_library_module(
                    idx,
                    LibraryModuleView {
                        name,
                        inputs: inputs@.map_values(|p: LibraryPin| p@).take(i as int),
                        outputs: Seq::empty(),
                    },
                    self@.modules[idx].inputs,
                    Seq::empty(),
                ),
            decreases inputs.len() - i,
        {
            let ghost entered = self@;
            let ghost shapes = inputs@.map_values(|p: LibraryPin| p@);
            let ghost so_far = LibraryModuleView {
                name,
                inputs: shapes.take(i as int),
                outputs: Seq::empty(),
            };
            let ghost ins = entered.modules[idx].inputs;
            let port = &inputs[i];
            let added = self.add_pin(idx, port.name.clone(), port.kind, InterconnectDirection::Input);
            proof {
                let pin = added.unwrap();
                entered.lemma_additions_keep_epochs(idx, pin, WireIndex(pin.0));
                before.lemma_fits_lists(so_far, ins, Seq::empty());
                before.lemma_library_module_grows(
                    idx,
                    so_far,
                    ins,
                    Seq::empty(),
                    pin,
                    shapes[i as int],
                    InterconnectDirection::Input,
                );
                assert(shapes.take(i + 1) == shapes.take(i as int).push(shapes[i as int]));
                assert(self@.modules[idx].inputs == ins.push(pin));
            }
            i += 1;
        }
        let ghost shapes_in = inputs@.map_values(|p: LibraryPin| p@);
        proof {
            assert(shapes_in.take(i as int) == shapes_in);
        }
        let outputs = module.outputs;
        let mut j: usize = 0;
        proof {
            assert(outputs@.map_values(|p: LibraryPin| p@).take(0) =~= Seq::empty());
        }
        while j < outputs.len()
            invariant
                j <= outputs.len(),
                self.wf(),
                !before.modules.contains_key(idx),
                shapes_in == inputs@.map_values(|p: LibraryPin| p@),
                before.pins_made + inputs@.len() + outputs@.len() <= u64::MAX,
                self@.pin_epoch() == before.pin_epoch(),
                before.fits(
                    LibraryModuleView {
                        name,
                        inputs: shapes_in,
                        outputs: outputs@.map_values(|p: LibraryPin| p@).take(j as int),
                    },
                    self@.modules[idx].inputs,
                    self@.modules[idx].outputs,
                ),
                self@ == before.with_library_module(
                    idx,
                    LibraryModuleView {
                        name,
                        inputs: shapes_in,
                        outputs: outputs@.map_values(|p: LibraryPin| p@).take(j as int),
                    },
                    self@.modules[idx].inputs,
                    self@.modules[idx].outputs,
                ),
            decreases outputs.len() - j,
        {
            let ghost entered = self@;
            let ghost shapes = outputs@.map_values(|p: LibraryPin| p@);
            let ghost so_far = LibraryModuleView {
                name,
                inputs: shapes_in,
                outputs: shapes.take(j as int),
            };
            let ghost ins = entered.modules[idx].inputs;
            let ghost outs = entered.modules[idx].outputs;
            let port = &outputs[j];
            let added = self.add_pin(
                idx,
                port.name.clone(),
                port.kind,
                InterconnectDirection::Output,
            );
            proof {
                let pin = added.unwrap();
                entered.lemma_additions_keep_epochs(idx, pin, WireIndex(pin.0));
                before.lemma_fits_lists(so_far, ins, outs);
                before.lemma_library_module_grows(
                    idx,
                    so_far,
                    ins,
                    outs,
                    pin,
                    shapes[j as int],
                    InterconnectDirection::Output,
                );
                assert(shapes.take(j + 1) == shapes.take(j as int).push(shapes[j as int]));
                assert(self@.modules[idx].outputs == outs.push(pin));
                assert(self@.modules[idx].inputs == ins);
            }
            j += 1;
        }
        proof {
            let shapes_out = outputs@.map_values(|p: LibraryPin| p@);
            assert(shapes_out.take(j as int) == shapes_out);
            assert(block == LibraryModuleView { name, inputs: shapes_in, outputs: shapes_out });
            before.law_library_round_trip(
                idx,
                block,
                self@.modules[idx].inputs,
                self@.modules[idx].outputs,
            );
        }
        idx
    }
}

} // verus!
