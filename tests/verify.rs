use safety_net::circuit::{Identifier, Instantiable, Net, Object};
use safety_net::netlist::{Gate, GateNetlist, NetlistError, Operand};

#[test]
fn inputs_w_same_name() {
    let mut netlist = GateNetlist::new("inputs_w_same_name".to_string());
    let a = netlist.insert_input("a".into());
    let b = netlist.insert_input("a".into());
    // Errors because both inputs have the same identifier
    assert!(netlist.verify().is_err());
    // Renaming fixes it
    b.set_identifier(&mut netlist, "b".into());
    assert!(netlist.verify().is_err());
    a.expose_with_name(&mut netlist, "y".into());
    b.expose_with_name(&mut netlist, "z".into());
    assert!(netlist.verify().is_ok());
}

#[test]
fn test_bus_operations() {
    let mut netlist = GateNetlist::new("test_bus_operations".to_string());

    let input_bus = netlist.insert_input_escaped_logic_bus("input_bus".to_string(), 4);

    assert_eq!(input_bus.len(), 4);
    for (i, bit) in input_bus.iter().enumerate() {
        assert!(bit.is_an_input(&netlist));
        let identifier = bit.get_identifier(&netlist);
        assert!(identifier.is_escaped());
        assert_eq!(identifier.get_name(), format!("input_bus[{i}]"));
    }

    let buffer_gate = Gate::new_logical(
        Identifier::from("buf1"),
        vec!["\\input[0]".into()],
        "buf_out".into(),
    );

    let buffer_1 = netlist
        .insert_gate(
            buffer_gate,
            Identifier::from("buf1_inst"),
            &[input_bus[0].clone()],
        )
        .expect("Failed to connect bus bit to buffer");

    assert!(buffer_1
        .get_instance_type(&netlist)
        .unwrap()
        .get_input_port(0)
        .get_identifier()
        .is_escaped());
    buffer_1.expose_with_name(&mut netlist, "buf_out".into());
    assert!(netlist.verify().is_ok());
}

#[test]
fn test_empty_netlist() {
    let mut netlist = GateNetlist::new("min_module".to_string());
    let a = netlist.insert_input("a".into());
    a.clone().expose_with_name(&mut netlist, "y".into());
    assert!(!netlist.outputs().is_empty());
    netlist.delete_net_uses(a.unwrap()).unwrap();
    assert!(netlist.outputs().is_empty());
}

#[test]
fn verify_reports_each_violation() {
    let mut netlist = GateNetlist::new("v".to_string());
    let a = netlist.insert_input("a".into());
    let b = netlist.insert_input("b".into());
    assert_eq!(netlist.verify(), Err(safety_net::netlist::NetlistError::NoOutputs));
    let and = || Gate::new_logical("AND".into(), vec!["A".into(), "B".into()], "Y".into());
    let g1 = netlist.insert_gate(and(), "g".into(), &[a, b]).unwrap();
    g1.expose_with_name(&mut netlist, "y".into());
    assert_eq!(netlist.verify(), Ok(()));
    let g2 = netlist.insert_gate(and(), "h".into(), &[a, b]).unwrap();
    g2.set_instance_name(&mut netlist, "g".into());
    g2.set_identifier(&mut netlist, "h_Y".into());
    assert_eq!(netlist.verify(), Err(safety_net::netlist::NetlistError::NonUniqueInstances));
    g2.set_identifier(&mut netlist, "g_Y".into());
    assert_eq!(netlist.verify(), Err(safety_net::netlist::NetlistError::NonUniqueNets));
}

#[test]
fn persisted_parts_round_trip() {
    let parts = vec![(Object::Input(Net::new_logic("in".to_string())), vec![], vec![])];
    let netlist: GateNetlist = GateNetlist::from_parts(
        "top".to_string(),
        parts,
        vec![(Operand::DirectIndex(0), Net::new_logic("out".to_string()))],
    )
    .unwrap();
    assert_eq!(netlist.objects().len(), 1);
    assert_eq!(netlist.inputs().len(), 1);
    let inst = netlist.last().unwrap();
    assert!(inst.get_instance_type(&netlist).is_none());
    assert_eq!(*inst.as_net(&netlist), "in".into());

    let bad = GateNetlist::from_parts(
        "top".to_string(),
        vec![(Object::Input(Net::new_logic("in".to_string())), vec![], vec![])],
        vec![(Operand::DirectIndex(3), Net::new_logic("out".to_string()))],
    );
    assert_eq!(bad.err(), Some(NetlistError::Malformed));
}
