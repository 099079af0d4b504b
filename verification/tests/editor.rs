use circuit_netlist::error::ConnectionError;
use circuit_netlist::{
    add_module, add_pin, add_wire, get_graph, numbers_fit, remove_module, remove_pin, remove_wire,
    set_module_position, CPort, CWire, Editor, InterconnectDirection, PinKind, WireRequestError,
};

fn ports(ports: &[CPort]) -> Vec<(i32, &str)> {
    ports.iter().map(|p| (p.id, p.name.as_str())).collect()
}

/// Two gates "and" and "or", drawn once so that everything has a number:
/// modules 0 and 1, pins 0..=2 on "and" and 3..=5 on "or".
fn two_gates() -> Editor {
    let mut editor = Editor::new();
    add_module(&mut editor, "and".to_owned());
    add_module(&mut editor, "or".to_owned());
    let graph = get_graph(&mut editor);
    assert_eq!(graph.modules.len(), 2);
    for m in 0..2 {
        assert_eq!(add_pin(&mut editor, m, "A".to_owned(), PinKind::Wire, InterconnectDirection::Input), 0);
        assert_eq!(add_pin(&mut editor, m, "B".to_owned(), PinKind::Wire, InterconnectDirection::Input), 0);
        assert_eq!(add_pin(&mut editor, m, "Out".to_owned(), PinKind::Wire, InterconnectDirection::Output), 0);
    }
    get_graph(&mut editor);
    editor
}

#[test]
fn an_empty_editor_draws_nothing() {
    let mut editor = Editor::new();
    assert!(numbers_fit(&editor));
    let graph = get_graph(&mut editor);
    assert!(graph.modules.is_empty());
    assert!(graph.wires.is_empty());
    assert_eq!(remove_module(&mut editor, 0), -1);
    assert_eq!(remove_pin(&mut editor, 0), -1);
    assert_eq!(remove_wire(&mut editor, 0), -1);
    assert_eq!(set_module_position(&mut editor, 0, 1, 2), -1);
    assert_eq!(
        add_pin(&mut editor, 0, "A".to_owned(), PinKind::Wire, InterconnectDirection::Input),
        -1
    );
}

#[test]
fn a_new_module_has_no_number_until_it_is_drawn() {
    let mut editor = Editor::new();
    add_module(&mut editor, "and".to_owned());
    assert_eq!(editor.netlist().modules().len(), 1);
    assert_eq!(editor.module_by_id(0), None);
    assert_eq!(remove_module(&mut editor, 0), -1);
    let graph = get_graph(&mut editor);
    assert_eq!(graph.modules.len(), 1);
    assert_eq!(graph.modules[0].id, 0);
    assert_eq!(graph.modules[0].name, "and");
    assert!(editor.module_by_id(0).is_some());
    assert_eq!(remove_module(&mut editor, 0), 0);
    // The number still stands for the handle, which no longer resolves.
    assert_eq!(remove_module(&mut editor, 0), -1);
    assert!(get_graph(&mut editor).modules.is_empty());
    assert_eq!(editor.module_by_id(0), None);
}

#[test]
fn pins_are_numbered_module_after_module() {
    let mut editor = two_gates();
    let graph = get_graph(&mut editor);
    assert_eq!(graph.modules.len(), 2);
    assert_eq!((graph.modules[0].id, graph.modules[0].name.as_str()), (0, "and"));
    assert_eq!((graph.modules[1].id, graph.modules[1].name.as_str()), (1, "or"));
    assert_eq!(ports(&graph.modules[0].inputs), vec![(0, "A"), (1, "B")]);
    assert_eq!(ports(&graph.modules[0].outputs), vec![(2, "Out")]);
    assert_eq!(ports(&graph.modules[1].inputs), vec![(3, "A"), (4, "B")]);
    assert_eq!(ports(&graph.modules[1].outputs), vec![(5, "Out")]);
    assert!(graph.wires.is_empty());
    assert_eq!(graph.modules[0].position, (0, 0));
}

#[test]
fn wires_are_drawn_between_pin_numbers() {
    let mut editor = two_gates();
    // "and".Out drives "or".A and "or".B; "or".Out drives "and".A.
    assert_eq!(add_wire(&mut editor, 2, 3), Ok(()));
    assert_eq!(add_wire(&mut editor, 4, 2), Ok(()));
    assert_eq!(add_wire(&mut editor, 5, 0), Ok(()));
    let graph = get_graph(&mut editor);
    assert_eq!(
        graph.wires,
        vec![
            CWire { id: 0, x: 3, y: 2 },
            CWire { id: 1, x: 4, y: 2 },
            CWire { id: 2, x: 0, y: 5 },
        ]
    );
    assert_eq!(remove_wire(&mut editor, 1), 0);
    assert_eq!(remove_wire(&mut editor, 1), -1);
    assert_eq!(remove_wire(&mut editor, 7), -1);
    let graph = get_graph(&mut editor);
    assert_eq!(graph.wires, vec![CWire { id: 0, x: 3, y: 2 }, CWire { id: 1, x: 0, y: 5 }]);
}

#[test]
fn wire_requests_say_why_they_fail() {
    let mut editor = two_gates();
    assert_eq!(add_wire(&mut editor, 99, 0), Err(WireRequestError::PinANotFound));
    assert_eq!(add_wire(&mut editor, 0, 99), Err(WireRequestError::PinBNotFound));
    assert_eq!(add_wire(&mut editor, 99, 98), Err(WireRequestError::PinANotFound));
    assert_eq!(
        add_wire(&mut editor, 0, 0),
        Err(WireRequestError::Refused(ConnectionError::IdenticalPins))
    );
    assert_eq!(
        add_wire(&mut editor, 0, 1),
        Err(WireRequestError::Refused(ConnectionError::Direction))
    );
    assert_eq!(add_wire(&mut editor, 2, 3), Ok(()));
    assert_eq!(
        add_wire(&mut editor, 5, 3),
        Err(WireRequestError::Refused(ConnectionError::InputDriven))
    );
    assert_eq!(WireRequestError::PinANotFound.to_string(), "Pin a not found");
    assert_eq!(WireRequestError::PinBNotFound.to_string(), "Pin b not found");
    assert_eq!(
        WireRequestError::Refused(ConnectionError::Direction).to_string(),
        "A wire must connect an input to an output"
    );
    // A pin that was drawn and then removed is refused by the netlist.
    assert_eq!(remove_pin(&mut editor, 4), 0);
    let stale = editor.pin_by_id(4).unwrap();
    assert_eq!(
        add_wire(&mut editor, 2, 4),
        Err(WireRequestError::Refused(ConnectionError::BadIndex(stale)))
    );
    assert_eq!(remove_pin(&mut editor, 4), -1);
}

#[test]
fn numbers_close_up_after_a_removal() {
    let mut editor = two_gates();
    assert_eq!(add_wire(&mut editor, 2, 3), Ok(()));
    assert_eq!(add_wire(&mut editor, 5, 0), Ok(()));
    assert_eq!(remove_pin(&mut editor, 1), 0);
    let graph = get_graph(&mut editor);
    assert_eq!(ports(&graph.modules[0].inputs), vec![(0, "A")]);
    assert_eq!(ports(&graph.modules[0].outputs), vec![(1, "Out")]);
    assert_eq!(ports(&graph.modules[1].inputs), vec![(2, "A"), (3, "B")]);
    assert_eq!(ports(&graph.modules[1].outputs), vec![(4, "Out")]);
    assert_eq!(graph.wires, vec![CWire { id: 0, x: 2, y: 1 }, CWire { id: 1, x: 0, y: 4 }]);
    // Removing "and" takes both wires with it, and "or" becomes module 0.
    assert_eq!(remove_module(&mut editor, 0), 0);
    let graph = get_graph(&mut editor);
    assert_eq!(graph.modules.len(), 1);
    assert_eq!((graph.modules[0].id, graph.modules[0].name.as_str()), (0, "or"));
    assert_eq!(ports(&graph.modules[0].inputs), vec![(0, "A"), (1, "B")]);
    assert_eq!(ports(&graph.modules[0].outputs), vec![(2, "Out")]);
    assert!(graph.wires.is_empty());
    assert!(numbers_fit(&editor));
}

#[test]
fn positions_pass_through() {
    let mut editor = two_gates();
    let x = 12.5f32.to_bits();
    let y = (-0.75f32).to_bits();
    assert_eq!(set_module_position(&mut editor, 1, x, y), 0);
    assert_eq!(set_module_position(&mut editor, 2, x, y), -1);
    let graph = get_graph(&mut editor);
    assert_eq!(graph.modules[0].position, (0, 0));
    assert_eq!(graph.modules[1].position, (x, y));
    assert_eq!(f32::from_bits(graph.modules[1].position.0), 12.5);
    assert_eq!(f32::from_bits(graph.modules[1].position.1), -0.75);
}

#[test]
fn tables_are_rebuilt_on_every_picture() {
    let mut editor = two_gates();
    let or_a = editor.pin_by_id(3).unwrap();
    assert_eq!(remove_module(&mut editor, 0), 0);
    // Not yet redrawn: 3 still stands for "or".A.
    assert_eq!(editor.pin_by_id(3), Some(or_a));
    get_graph(&mut editor);
    assert_eq!(editor.pin_by_id(0), Some(or_a));
    assert_eq!(editor.pin_by_id(3), None);
    assert_eq!(editor.wire_by_id(0), None);
    assert_eq!(editor.netlist().get_pin(or_a).unwrap().name(), "A");
}
