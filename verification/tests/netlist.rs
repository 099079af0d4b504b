use circuit_netlist::error::ConnectionError;
use circuit_netlist::handle::{Handle, ModuleIndex, PinIndex, WireIndex};
use circuit_netlist::kinds::{InterconnectDirection, PinKind};
use circuit_netlist::netlist::Netlist;
use circuit_netlist::pin::Interconnect;

#[test]
fn test_add_module() {
    let mut netlist = Netlist::new();
    let mi = netlist.add_module("my_name".to_owned());
    assert_eq!(netlist.get_module(mi).unwrap().name(), "my_name");
}

#[test]
fn test_add_pin() {
    let mut netlist = Netlist::new();
    let mi = netlist.add_module("my_name".to_owned());
    let _ = netlist
        .add_pin(
            mi,
            "A".to_owned(),
            PinKind::Wire,
            InterconnectDirection::Input,
        )
        .unwrap();
    let _ = netlist
        .add_pin(
            mi,
            "B".to_owned(),
            PinKind::Wire,
            InterconnectDirection::Input,
        )
        .unwrap();
    let _ = netlist
        .add_pin(
            mi,
            "C".to_owned(),
            PinKind::Wire,
            InterconnectDirection::Output,
        )
        .unwrap();
}

#[test]
fn test_remove_pin() {
    let mut netlist = Netlist::new();
    let mi = netlist.add_module("my_name".to_owned());
    let pi_a = netlist
        .add_pin(
            mi,
            "A".to_owned(),
            PinKind::Wire,
            InterconnectDirection::Input,
        )
        .unwrap();
    let pi_b = netlist
        .add_pin(
            mi,
            "B".to_owned(),
            PinKind::Wire,
            InterconnectDirection::Input,
        )
        .unwrap();
    assert!(netlist.remove_pin(pi_a).is_some());
    assert_eq!(netlist.pins().len(), 1);
    assert_eq!(
        *netlist.get_module(mi).unwrap().inputs().iter().next().unwrap(),
        pi_b
    );
}

#[test]
fn test_remove_module() {
    let mut netlist = Netlist::new();
    let mi = netlist.add_module("my_name".to_owned());
    let mi_b = netlist.add_module("my_name_B".to_owned());
    let _ = netlist
        .add_pin(
            mi,
            "A".to_owned(),
            PinKind::Wire,
            InterconnectDirection::Input,
        )
        .unwrap();
    let _ = netlist
        .add_pin(
            mi,
            "B".to_owned(),
            PinKind::Wire,
            InterconnectDirection::Input,
        )
        .unwrap();
    netlist.remove_module(mi).unwrap();
    assert_eq!(netlist.modules().len(), 1);
    let m = netlist.modules().iter().next().unwrap().0;
    assert_eq!(m, mi_b.0);
}

#[test]
fn test_add_wire() {
    let mut netlist = Netlist::new();
    let m_1 = netlist.add_module("mod".to_owned());
    let a_1 = netlist
        .add_pin(
            m_1,
            "A".to_owned(),
            PinKind::Wire,
            InterconnectDirection::Input,
        )
        .unwrap();
    let b_1 = netlist
        .add_pin(
            m_1,
            "B".to_owned(),
            PinKind::Wire,
            InterconnectDirection::Input,
        )
        .unwrap();
    let c_1 = netlist
        .add_pin(
            m_1,
            "C".to_owned(),
            PinKind::Wire,
            InterconnectDirection::Output,
        )
        .unwrap();

    let m_2 = netlist.add_module("mod2".to_owned());
    let a_2 = netlist
        .add_pin(
            m_2,
            "A".to_owned(),
            PinKind::Real,
            InterconnectDirection::Input,
        )
        .unwrap();
    let b_2 = netlist
        .add_pin(
            m_2,
            "B".to_owned(),
            PinKind::Wire,
            InterconnectDirection::Input,
        )
        .unwrap();
    let c_2 = netlist
        .add_pin(
            m_2,
            "C".to_owned(),
            PinKind::Wire,
            InterconnectDirection::Output,
        )
        .unwrap();

    // Bad connections
    netlist.add_wire(a_1, a_1).expect_err("Identical");
    netlist.add_wire(a_1, b_1).expect_err("Both inputs");
    netlist.add_wire(c_1, a_2).expect_err("Incompatible");

    // Good connection
    let wi = netlist.add_wire(c_1, b_2).unwrap();

    // Bad connection
    netlist.add_wire(c_2, b_2).expect_err("Input driven");

    // Make sure everything got hooked up
    assert_eq!(netlist.wires().len(), 1);
    assert_eq!(netlist.wires().iter().next().unwrap().0, wi.0);
    let (input, output) = netlist.get_wire(wi).unwrap();
    let input_pin = netlist.get_pin(*input).unwrap();
    let output_pin = netlist.get_pin(*output).unwrap();

    if let Interconnect::Input { connection } = input_pin.interconnect() {
        if let Interconnect::Output { connections } = output_pin.interconnect() {
            assert_eq!(*connection, Some(*output));
            assert!(connections.contains(input));
        } else {
            panic!()
        }
    } else {
        panic!()
    }
}

#[test]
fn test_remove_wire() {
    let mut netlist = Netlist::new();
    let m_1 = netlist.add_module("mod".to_owned());
    let c_1 = netlist
        .add_pin(
            m_1,
            "C".to_owned(),
            PinKind::Wire,
            InterconnectDirection::Output,
        )
        .unwrap();

    let m_2 = netlist.add_module("mod2".to_owned());
    let a_2 = netlist
        .add_pin(
            m_2,
            "A".to_owned(),
            PinKind::Wire,
            InterconnectDirection::Input,
        )
        .unwrap();
    let b_2 = netlist
        .add_pin(
            m_2,
            "B".to_owned(),
            PinKind::Wire,
            InterconnectDirection::Input,
        )
        .unwrap();

    // Drive all the inputs of m_2 with the output of m_1
    let wi_1 = netlist.add_wire(c_1, a_2).unwrap();
    let _ = netlist.add_wire(c_1, b_2).unwrap();

    // Now remove wi_1
    assert!(netlist.remove_wire(wi_1).is_some());

    // And check that everything was cleaned up
    assert_eq!(netlist.wires().len(), 1);
    match netlist.get_pin(c_1).unwrap().interconnect() {
        Interconnect::Output { connections } => {
            assert_eq!(connections.len(), 1);
            assert_eq!(connections[0], b_2);
        }
        _ => unreachable!(),
    }
    match netlist.get_pin(a_2).unwrap().interconnect() {
        Interconnect::Input { connection } => {
            assert!(connection.is_none());
        }
        _ => unreachable!(),
    }
    match netlist.get_pin(b_2).unwrap().interconnect() {
        Interconnect::Input { connection } => {
            assert_eq!(connection.unwrap(), c_1);
        }
        _ => unreachable!(),
    }
}

#[test]
fn test_delete_mod_with_wires() {
    let mut netlist = Netlist::new();
    let m_1 = netlist.add_module("".to_owned());
    let out_1 = netlist
        .add_pin(
            m_1,
            "".to_owned(),
            PinKind::Wire,
            InterconnectDirection::Output,
        )
        .unwrap();

    let m_2 = netlist.add_module("".to_owned());
    let out_2 = netlist
        .add_pin(
            m_2,
            "".to_owned(),
            PinKind::Wire,
            InterconnectDirection::Output,
        )
        .unwrap();

    let m_3 = netlist.add_module("".to_owned());
    let a = netlist
        .add_pin(
            m_3,
            "".to_owned(),
            PinKind::Wire,
            InterconnectDirection::Input,
        )
        .unwrap();
    let b = netlist
        .add_pin(
            m_3,
            "".to_owned(),
            PinKind::Wire,
            InterconnectDirection::Input,
        )
        .unwrap();

    let _ = netlist.add_wire(out_1, a).unwrap();
    let _ = netlist.add_wire(out_2, b).unwrap();

    assert_eq!(netlist.wires().len(), 2);
    assert_eq!(netlist.modules().len(), 3);
    assert_eq!(netlist.pins().len(), 4);
    // Remove mod 1
    assert!(netlist.remove_module(m_1).is_some());
    assert_eq!(netlist.wires().len(), 1);
    assert_eq!(netlist.modules().len(), 2);
    assert_eq!(netlist.pins().len(), 3);
    match netlist.get_pin(a).unwrap().interconnect() {
        Interconnect::Input { connection } => {
            assert!(connection.is_none())
        }
        _ => unreachable!(),
    }
    match netlist.get_pin(b).unwrap().interconnect() {
        Interconnect::Input { connection } => {
            assert_eq!(connection.unwrap(), out_2)
        }
        _ => unreachable!(),
    }
}

/// A module with two inputs and one output, all of kind `Wire`.
fn gate(netlist: &mut Netlist, name: &str) -> (ModuleIndex, PinIndex, PinIndex, PinIndex) {
    let m = netlist.add_module(name.to_owned());
    let a = netlist
        .add_pin(m, "A".to_owned(), PinKind::Wire, InterconnectDirection::Input)
        .unwrap();
    let b = netlist
        .add_pin(m, "B".to_owned(), PinKind::Wire, InterconnectDirection::Input)
        .unwrap();
    let out = netlist
        .add_pin(m, "Out".to_owned(), PinKind::Wire, InterconnectDirection::Output)
        .unwrap();
    (m, a, b, out)
}

#[test]
fn wiring_a_pin_to_itself_is_refused() {
    let mut netlist = Netlist::new();
    let (_, a, _, out) = gate(&mut netlist, "and");
    assert_eq!(netlist.add_wire(a, a), Err(ConnectionError::IdenticalPins));
    assert_eq!(netlist.add_wire(out, out), Err(ConnectionError::IdenticalPins));
    // Also for a handle that never resolved.
    let ghost = PinIndex(Handle::from_raw_parts(77, 3));
    assert_eq!(netlist.add_wire(ghost, ghost), Err(ConnectionError::IdenticalPins));
    assert_eq!(netlist.wires().len(), 0);
}

#[test]
fn wiring_different_kinds_is_refused_and_changes_nothing() {
    let mut netlist = Netlist::new();
    let m = netlist.add_module("mixed".to_owned());
    let out = netlist
        .add_pin(m, "Out".to_owned(), PinKind::Integer, InterconnectDirection::Output)
        .unwrap();
    let inp = netlist
        .add_pin(m, "In".to_owned(), PinKind::Real, InterconnectDirection::Input)
        .unwrap();
    assert_eq!(
        netlist.add_wire(out, inp),
        Err(ConnectionError::Compatibility(PinKind::Integer, PinKind::Real))
    );
    assert_eq!(
        netlist.add_wire(inp, out),
        Err(ConnectionError::Compatibility(PinKind::Real, PinKind::Integer))
    );
    assert_eq!(netlist.wires().len(), 0);
    assert_eq!(netlist.get_pin(inp).unwrap().driver(), None);
    match netlist.get_pin(out).unwrap().interconnect() {
        Interconnect::Output { connections } => assert!(connections.is_empty()),
        _ => unreachable!(),
    }
}

#[test]
fn kind_is_tested_before_direction() {
    let mut netlist = Netlist::new();
    let m = netlist.add_module("m".to_owned());
    let a = netlist
        .add_pin(m, "A".to_owned(), PinKind::Wire, InterconnectDirection::Input)
        .unwrap();
    let b = netlist
        .add_pin(m, "B".to_owned(), PinKind::Real, InterconnectDirection::Input)
        .unwrap();
    assert_eq!(
        netlist.add_wire(a, b),
        Err(ConnectionError::Compatibility(PinKind::Wire, PinKind::Real))
    );
}

#[test]
fn wiring_two_inputs_or_two_outputs_is_refused() {
    let mut netlist = Netlist::new();
    let (_, a1, b1, out1) = gate(&mut netlist, "and");
    let (_, _, _, out2) = gate(&mut netlist, "or");
    assert_eq!(netlist.add_wire(a1, b1), Err(ConnectionError::Direction));
    assert_eq!(netlist.add_wire(out1, out2), Err(ConnectionError::Direction));
    assert_eq!(netlist.wires().len(), 0);
}

#[test]
fn wiring_a_stale_pin_is_refused() {
    let mut netlist = Netlist::new();
    let (_, a, _, out) = gate(&mut netlist, "and");
    assert!(netlist.remove_pin(a).is_some());
    assert_eq!(netlist.add_wire(out, a), Err(ConnectionError::BadIndex(a)));
    assert_eq!(netlist.add_wire(a, out), Err(ConnectionError::BadIndex(a)));
    let never = PinIndex(Handle::from_raw_parts(1000, 0));
    assert_eq!(netlist.add_wire(out, never), Err(ConnectionError::BadIndex(never)));
    assert_eq!(netlist.add_wire(never, a), Err(ConnectionError::BadIndex(never)));
}

#[test]
fn a_reused_slot_does_not_revive_the_old_handle() {
    let mut netlist = Netlist::new();
    let (m, a, _, out) = gate(&mut netlist, "and");
    assert!(netlist.remove_pin(a).is_some());
    let fresh = netlist
        .add_pin(m, "A2".to_owned(), PinKind::Wire, InterconnectDirection::Input)
        .unwrap();
    // The arena hands the freed slot out again, under a later generation.
    assert_eq!(fresh.0.slot, a.0.slot);
    assert_ne!(fresh, a);
    assert!(netlist.get_pin(a).is_none());
    assert_eq!(netlist.get_pin(fresh).unwrap().name(), "A2");
    // Both handles name one slot: the one of the earlier generation is
    // reported, whichever side it stands on.
    assert_eq!(netlist.add_wire(a, fresh), Err(ConnectionError::BadIndex(a)));
    assert_eq!(netlist.add_wire(fresh, a), Err(ConnectionError::BadIndex(a)));
    assert_eq!(netlist.add_wire(a, out), Err(ConnectionError::BadIndex(a)));
    assert!(netlist.add_wire(out, fresh).is_ok());
}

#[test]
fn a_removed_handle_is_of_an_earlier_generation_than_any_new_one() {
    let mut netlist = Netlist::new();
    let (m, a, b, out) = gate(&mut netlist, "and");
    assert_eq!(netlist.pins_made(), 3);
    assert_eq!((a.0.generation, b.0.generation, out.0.generation), (0, 0, 0));
    assert!(netlist.remove_pin(a).is_some());
    assert!(netlist.remove_pin(b).is_some());
    // Two removals so far: the next handle is of generation 2.
    let c = netlist
        .add_pin(m, "C".to_owned(), PinKind::Wire, InterconnectDirection::Input)
        .unwrap();
    assert_eq!(c.0.generation, 2);
    assert_eq!(netlist.pins_made(), 4);
    let w = netlist.add_wire(out, c).unwrap();
    assert_eq!(w.0.generation, 0);
    assert!(netlist.remove_wire(w).is_some());
    let w2 = netlist.add_wire(c, out).unwrap();
    assert_eq!((w2.0.slot, w2.0.generation), (w.0.slot, 1));
    assert_eq!(netlist.wires_made(), 2);
    // Removing the pin takes the wire out through the arena's `retain`.
    assert!(netlist.remove_pin(c).is_some());
    assert!(netlist.get_wire(w2).is_none());
    let d = netlist
        .add_pin(m, "D".to_owned(), PinKind::Wire, InterconnectDirection::Input)
        .unwrap();
    let w3 = netlist.add_wire(out, d).unwrap();
    assert_eq!(w3.0.generation, 2);
    assert_eq!(d.0.generation, 3);
    for stale in [a, b, c] {
        assert!(netlist.get_pin(stale).is_none());
    }
    for stale in [w, w2] {
        assert!(netlist.get_wire(stale).is_none());
    }
    // A module handle ages with the removals of modules.
    assert!(netlist.remove_module(m).is_some());
    let m2 = netlist.add_module("or".to_owned());
    assert_eq!((m2.0.slot, m2.0.generation), (m.0.slot, 1));
    assert!(netlist.get_module(m).is_none());
}

#[test]
fn a_driven_input_takes_no_second_wire() {
    let mut netlist = Netlist::new();
    let (_, _, _, out1) = gate(&mut netlist, "and");
    let (_, a2, _, out2) = gate(&mut netlist, "or");
    let (_, _, _, out3) = gate(&mut netlist, "xor");
    assert!(netlist.add_wire(out1, a2).is_ok());
    assert_eq!(netlist.add_wire(out2, a2), Err(ConnectionError::InputDriven));
    assert_eq!(netlist.add_wire(a2, out3), Err(ConnectionError::InputDriven));
    assert_eq!(netlist.add_wire(out1, a2), Err(ConnectionError::InputDriven));
    assert_eq!(netlist.wires().len(), 1);
}

#[test]
fn a_wire_links_both_ends_in_either_order() {
    let mut netlist = Netlist::new();
    let (_, _, _, out1) = gate(&mut netlist, "and");
    let (_, a2, b2, _) = gate(&mut netlist, "or");
    let w1 = netlist.add_wire(out1, a2).unwrap();
    let w2 = netlist.add_wire(b2, out1).unwrap();
    assert_eq!(*netlist.get_wire(w1).unwrap(), (a2, out1));
    assert_eq!(*netlist.get_wire(w2).unwrap(), (b2, out1));
    assert_eq!(netlist.get_pin(a2).unwrap().driver(), Some(out1));
    assert_eq!(netlist.get_pin(b2).unwrap().driver(), Some(out1));
    match netlist.get_pin(out1).unwrap().interconnect() {
        Interconnect::Output { connections } => assert_eq!(connections, &vec![a2, b2]),
        _ => unreachable!(),
    }
}

#[test]
fn removing_an_input_pin_clears_its_driver_and_its_wire() {
    let mut netlist = Netlist::new();
    let (_, _, _, out1) = gate(&mut netlist, "and");
    let (m2, a2, b2, _) = gate(&mut netlist, "or");
    let w1 = netlist.add_wire(out1, a2).unwrap();
    let w2 = netlist.add_wire(out1, b2).unwrap();
    assert_eq!(netlist.remove_pin(a2), Some(()));
    assert!(netlist.get_pin(a2).is_none());
    assert!(netlist.get_wire(w1).is_none());
    assert_eq!(*netlist.get_wire(w2).unwrap(), (b2, out1));
    match netlist.get_pin(out1).unwrap().interconnect() {
        Interconnect::Output { connections } => assert_eq!(connections, &vec![b2]),
        _ => unreachable!(),
    }
    assert_eq!(netlist.get_module(m2).unwrap().inputs(), &[b2]);
    // A second removal finds nothing.
    assert_eq!(netlist.remove_pin(a2), None);
}

#[test]
fn removing_an_output_pin_clears_every_input_it_drove() {
    let mut netlist = Netlist::new();
    let (m1, _, _, out1) = gate(&mut netlist, "and");
    let (_, a2, b2, out2) = gate(&mut netlist, "or");
    let (_, a3, _, _) = gate(&mut netlist, "xor");
    netlist.add_wire(out1, a2).unwrap();
    netlist.add_wire(out1, b2).unwrap();
    let kept = netlist.add_wire(out2, a3).unwrap();
    assert_eq!(netlist.remove_pin(out1), Some(()));
    assert_eq!(netlist.get_pin(a2).unwrap().driver(), None);
    assert_eq!(netlist.get_pin(b2).unwrap().driver(), None);
    assert_eq!(netlist.get_pin(a3).unwrap().driver(), Some(out2));
    assert_eq!(netlist.wires().len(), 1);
    assert_eq!(netlist.wires()[0].0, kept.0);
    assert!(netlist.get_module(m1).unwrap().outputs().is_empty());
    assert_eq!(netlist.get_module(m1).unwrap().inputs().len(), 2);
}

#[test]
fn removing_a_module_spares_the_others() {
    let mut netlist = Netlist::new();
    let (m1, a1, b1, out1) = gate(&mut netlist, "and");
    let (m2, a2, b2, out2) = gate(&mut netlist, "or");
    let (m3, a3, _, _) = gate(&mut netlist, "xor");
    let w12 = netlist.add_wire(out1, a2).unwrap();
    let w23 = netlist.add_wire(out2, a3).unwrap();
    let w21 = netlist.add_wire(out2, b1).unwrap();
    assert_eq!(netlist.remove_module(m1), Some(()));
    assert!(netlist.get_module(m1).is_none());
    for p in [a1, b1, out1] {
        assert!(netlist.get_pin(p).is_none());
    }
    assert!(netlist.get_wire(w12).is_none());
    assert!(netlist.get_wire(w21).is_none());
    assert_eq!(*netlist.get_wire(w23).unwrap(), (a3, out2));
    assert_eq!(netlist.get_module(m2).unwrap().name(), "or");
    assert_eq!(netlist.get_module(m2).unwrap().inputs(), &[a2, b2]);
    assert_eq!(netlist.get_module(m2).unwrap().outputs(), &[out2]);
    assert_eq!(netlist.get_module(m3).unwrap().inputs().len(), 2);
    assert_eq!(netlist.get_pin(a2).unwrap().driver(), None);
    assert_eq!(netlist.get_pin(a3).unwrap().driver(), Some(out2));
    match netlist.get_pin(out2).unwrap().interconnect() {
        Interconnect::Output { connections } => assert_eq!(connections, &vec![a3]),
        _ => unreachable!(),
    }
    assert_eq!(netlist.remove_module(m1), None);
}

#[test]
fn and_or_scenario() {
    let mut netlist = Netlist::new();
    let (and, _, _, and_out) = gate(&mut netlist, "and");
    let (_, or_a, _, _) = gate(&mut netlist, "or");
    assert!(netlist.add_wire(and_out, or_a).is_ok());
    assert_eq!(netlist.wires().len(), 1);
    assert_eq!(netlist.add_wire(and_out, or_a), Err(ConnectionError::InputDriven));
    assert_eq!(netlist.wires().len(), 1);
    assert!(netlist.remove_module(and).is_some());
    assert_eq!(netlist.wires().len(), 0);
    assert_eq!(netlist.get_pin(or_a).unwrap().driver(), None);
}

#[test]
fn module_ids_count_up_and_are_not_reused() {
    let mut netlist = Netlist::new();
    let m0 = netlist.add_module("zero".to_owned());
    let m1 = netlist.add_module("one".to_owned());
    assert_eq!(netlist.get_module(m0).unwrap().id(), 0);
    assert_eq!(netlist.get_module(m1).unwrap().id(), 1);
    assert!(netlist.remove_module(m0).is_some());
    let m2 = netlist.add_module("two".to_owned());
    assert_eq!(m2.0.slot, m0.0.slot);
    assert_eq!(netlist.get_module(m2).unwrap().id(), 2);
    assert_eq!(netlist.next_module_id(), 3);
    assert!(netlist.get_module(m0).is_none());
}

#[test]
fn pins_keep_the_order_in_which_they_were_added() {
    let mut netlist = Netlist::new();
    let m = netlist.add_module("m".to_owned());
    let names = ["d", "a", "c", "b"];
    let mut pins = Vec::new();
    for name in names {
        pins.push(
            netlist
                .add_pin(m, name.to_owned(), PinKind::Integer, InterconnectDirection::Output)
                .unwrap(),
        );
    }
    assert_eq!(netlist.get_module(m).unwrap().outputs(), pins.as_slice());
    assert!(netlist.get_module(m).unwrap().inputs().is_empty());
    let pin = netlist.get_pin(pins[2]).unwrap();
    assert_eq!(pin.name(), "c");
    assert_eq!(pin.kind(), PinKind::Integer);
    assert_eq!(pin.direction(), InterconnectDirection::Output);
    assert!(pin.is_output());
    assert!(!pin.is_input());
    assert_eq!(pin.parent(), m);
}

#[test]
fn adding_a_pin_to_a_missing_module_fails() {
    let mut netlist = Netlist::new();
    let m = netlist.add_module("m".to_owned());
    assert!(netlist.remove_module(m).is_some());
    assert_eq!(
        netlist.add_pin(m, "A".to_owned(), PinKind::Wire, InterconnectDirection::Input),
        None
    );
    assert_eq!(netlist.pins().len(), 0);
}

#[test]
fn removing_a_wire_twice_finds_nothing() {
    let mut netlist = Netlist::new();
    let (_, _, _, out1) = gate(&mut netlist, "and");
    let (_, a2, _, _) = gate(&mut netlist, "or");
    let w = netlist.add_wire(out1, a2).unwrap();
    assert_eq!(netlist.remove_wire(w), Some(()));
    assert_eq!(netlist.remove_wire(w), None);
    assert_eq!(netlist.remove_wire(WireIndex(Handle::from_raw_parts(9, 9))), None);
    // The input is free again.
    assert!(netlist.add_wire(a2, out1).is_ok());
}

#[test]
fn removing_a_new_wire_undoes_the_connection() {
    let mut netlist = Netlist::new();
    let (_, _, _, out1) = gate(&mut netlist, "and");
    let (_, a2, b2, _) = gate(&mut netlist, "or");
    netlist.add_wire(out1, b2).unwrap();
    let w = netlist.add_wire(a2, out1).unwrap();
    assert_eq!(netlist.remove_wire(w), Some(()));
    assert_eq!(netlist.get_pin(a2).unwrap().driver(), None);
    assert_eq!(netlist.get_pin(b2).unwrap().driver(), Some(out1));
    match netlist.get_pin(out1).unwrap().interconnect() {
        Interconnect::Output { connections } => assert_eq!(connections, &vec![b2]),
        _ => unreachable!(),
    }
    assert_eq!(netlist.wires().len(), 1);
    assert_eq!(netlist.wires_made(), 2);
}

#[test]
fn position_is_stored_as_given() {
    let mut netlist = Netlist::new();
    let m = netlist.add_module("m".to_owned());
    assert_eq!(netlist.get_module(m).unwrap().position(), (0, 0));
    let x = 1.5f32.to_bits();
    let y = (-2.25f32).to_bits();
    assert_eq!(netlist.set_module_position(m, x, y), Some(()));
    assert_eq!(netlist.get_module(m).unwrap().position(), (x, y));
    assert!(netlist.remove_module(m).is_some());
    assert_eq!(netlist.set_module_position(m, 0, 0), None);
}

#[test]
fn enumeration_goes_by_slot() {
    let mut netlist = Netlist::new();
    let m0 = netlist.add_module("zero".to_owned());
    let m1 = netlist.add_module("one".to_owned());
    let m2 = netlist.add_module("two".to_owned());
    assert!(netlist.remove_module(m1).is_some());
    let m3 = netlist.add_module("three".to_owned());
    let listed: Vec<Handle> = netlist.modules().iter().map(|item| item.0).collect();
    assert_eq!(listed, vec![m0.0, m3.0, m2.0]);
    let names: Vec<&str> = netlist.modules().iter().map(|item| item.1.name()).collect();
    assert_eq!(names, vec!["zero", "three", "two"]);
}

#[test]
fn handles_and_errors_are_shown() {
    let pin = PinIndex(Handle::from_raw_parts(12, 340));
    assert_eq!(pin.to_string(), "Index:12, Generation:340");
    assert_eq!(ModuleIndex(Handle::from_raw_parts(0, 0)).to_string(), "Index:0, Generation:0");
    assert_eq!(
        WireIndex(Handle::from_raw_parts(7, 18446744073709551615)).to_string(),
        "Index:7, Generation:18446744073709551615"
    );
    assert_eq!(pin.0.into_raw_parts(), (12, 340));
    assert_eq!(PinKind::Wire.to_string(), "wire");
    assert_eq!(PinKind::Integer.to_string(), "integer");
    assert_eq!(PinKind::Real.to_string(), "real");
    assert!(PinKind::Real.compatible(PinKind::Real));
    assert!(!PinKind::Real.compatible(PinKind::Integer));
    assert_eq!(
        ConnectionError::BadIndex(pin).to_string(),
        "The supplied pin index `Index:12, Generation:340` points to a pin that doesn't exist"
    );
    assert_eq!(ConnectionError::IdenticalPins.to_string(), "Pins a and b are identical");
    assert_eq!(
        ConnectionError::Compatibility(PinKind::Wire, PinKind::Real).to_string(),
        "The pins on either side of the connection are incompatible: wire and real"
    );
    assert_eq!(
        ConnectionError::Direction.to_string(),
        "A wire must connect an input to an output"
    );
    assert_eq!(
        ConnectionError::InputDriven.to_string(),
        "The input is already driven. Remove the existing connection first."
    );
}
