use circuit_netlist::kinds::PinKind;
use circuit_netlist::library::{LibraryModule, LibraryPin};
use circuit_netlist::netlist::Netlist;

fn logical() -> LibraryModule {
    LibraryModule {
        name: "Logical".to_owned(),
        inputs: vec![
            LibraryPin {
                name: "A".to_owned(),
                kind: PinKind::Wire,
            },
            LibraryPin {
                name: "B".to_owned(),
                kind: PinKind::Wire,
            },
        ],
        outputs: vec![LibraryPin {
            name: "Out".to_owned(),
            kind: PinKind::Wire,
        }],
    }
}

#[test]
fn test_adding_library() {
    let mut netlist = Netlist::new();
    // Create a new library object
    let logical = LibraryModule {
        name: "Logical".to_owned(),
        inputs: vec![
            LibraryPin {
                name: "A".to_owned(),
                kind: PinKind::Wire,
            },
            LibraryPin {
                name: "B".to_owned(),
                kind: PinKind::Wire,
            },
        ],
        outputs: vec![LibraryPin {
            name: "Out".to_owned(),
            kind: PinKind::Wire,
        }],
    };
    // Add it
    netlist.add_module_from_library(logical);
}

fn shape(pins: &[LibraryPin]) -> Vec<(String, PinKind)> {
    pins.iter().map(|p| (p.name.clone(), p.kind)).collect()
}

#[test]
fn a_library_block_comes_back_as_it_went_in() {
    let mut netlist = Netlist::new();
    let block = LibraryModule {
        name: "mixer".to_owned(),
        inputs: vec![
            LibraryPin { name: "gain".to_owned(), kind: PinKind::Real },
            LibraryPin { name: "sel".to_owned(), kind: PinKind::Integer },
            LibraryPin { name: "in".to_owned(), kind: PinKind::Wire },
        ],
        outputs: vec![
            LibraryPin { name: "out".to_owned(), kind: PinKind::Wire },
            LibraryPin { name: "level".to_owned(), kind: PinKind::Real },
        ],
    };
    let expected_in = shape(&block.inputs);
    let expected_out = shape(&block.outputs);
    let first = netlist.add_module_from_library(block);
    let back = netlist.get_library_module(first).unwrap();
    assert_eq!(back.name, "mixer");
    assert_eq!(shape(&back.inputs), expected_in);
    assert_eq!(shape(&back.outputs), expected_out);
    // Exported and imported once more, the copy has the same shape and an id
    // of its own.
    let second = netlist.add_module_from_library(back);
    assert_ne!(first, second);
    let again = netlist.get_library_module(second).unwrap();
    assert_eq!(again.name, "mixer");
    assert_eq!(shape(&again.inputs), expected_in);
    assert_eq!(shape(&again.outputs), expected_out);
    assert_eq!(netlist.get_module(first).unwrap().id(), 0);
    assert_eq!(netlist.get_module(second).unwrap().id(), 1);
    assert_eq!(netlist.pins().len(), 10);
}

#[test]
fn a_library_module_of_a_missing_module_is_none() {
    let mut netlist = Netlist::new();
    let m = netlist.add_module_from_library(logical());
    assert!(netlist.get_library_module(m).is_some());
    assert!(netlist.remove_module(m).is_some());
    assert!(netlist.get_library_module(m).is_none());
    assert_eq!(netlist.pins().len(), 0);
}

#[test]
fn library_pins_are_added_unlinked_and_in_order() {
    let mut netlist = Netlist::new();
    let m = netlist.add_module_from_library(logical());
    let module = netlist.get_module(m).unwrap();
    assert_eq!(module.name(), "Logical");
    assert_eq!(module.inputs().len(), 2);
    assert_eq!(module.outputs().len(), 1);
    let a = netlist.get_pin(module.inputs()[0]).unwrap();
    let b = netlist.get_pin(module.inputs()[1]).unwrap();
    let out = netlist.get_pin(module.outputs()[0]).unwrap();
    assert_eq!((a.name(), a.is_input(), a.driver()), ("A", true, None));
    assert_eq!((b.name(), b.is_input(), b.driver()), ("B", true, None));
    assert_eq!((out.name(), out.is_output(), out.parent()), ("Out", true, m));
}
