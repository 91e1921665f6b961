use safety_net::netlist::{Gate, GateNetlist, Netlist};

fn assert_verilog_eq(left: &str, right: &str) {
    for (l, r) in left.lines().zip(right.lines()) {
        assert_eq!(l.trim(), r.trim());
    }
    assert_eq!(left.lines().count(), right.lines().count());
}

fn and_gate() -> Gate {
    Gate::new_logical("AND".into(), vec!["A".into(), "B".into()], "Y".into())
}

fn get_simple_example() -> GateNetlist {
    let mut netlist = Netlist::new("example".to_string());
    let a = netlist.insert_input("a".into());
    let b = netlist.insert_input("b".into());
    let instance = netlist
        .insert_gate(and_gate(), "inst_0".into(), &[a, b])
        .unwrap();
    instance.expose_with_name(&mut netlist, "y".into());
    netlist
}

#[test]
fn test_clean() {
    let mut netlist = get_simple_example();
    assert!(netlist.verify().is_ok());
    assert!(!netlist.clean().unwrap());
    let inputs: Vec<_> = netlist.inputs();
    assert_eq!(inputs.len(), 2);
    let _new_cell = netlist
        .insert_gate(and_gate(), "inst_1".into(), &inputs)
        .unwrap();
    assert!(netlist.verify().is_ok());
    assert_eq!(netlist.objects().len(), 4);
    assert!(netlist.clean().unwrap());
    assert_eq!(netlist.objects().len(), 3);
    assert!(!netlist.clean().unwrap());
}

#[test]
fn test_replace() {
    let mut netlist = get_simple_example();
    let input = netlist.inputs()[0];
    let inverter = Gate::new_logical("INV".into(), vec!["I".into()], "O".into());
    let inverted = netlist
        .insert_gate(inverter, "inst_0".into(), &[input])
        .unwrap();
    assert!(netlist.replace_net_uses(input.unwrap(), &inverted).is_ok());
    assert_verilog_eq(
        &netlist.to_verilog(),
        "module example (
           a,
           b,
           y
         );
           input a;
           wire a;
           input b;
           wire b;
           output y;
           wire y;
           wire inst_0_Y;
           wire inst_0_O;
           AND inst_0 (
             .A(inst_0_O),
             .B(b),
             .Y(inst_0_Y)
           );
           INV inst_0 (
             .I(inst_0_O),
             .O(inst_0_O)
           );
           assign y = inst_0_Y;
         endmodule\n",
    );
}

#[test]
fn clean_removes_dead_chain() {
    let mut netlist = get_simple_example();
    let a = netlist.inputs()[0];
    let inv = || Gate::new_logical("INV".into(), vec!["I".into()], "O".into());
    let g1 = netlist.insert_gate(inv(), "c1".into(), &[a]).unwrap();
    let g2 = netlist
        .insert_gate(inv(), "c2".into(), &[g1.get_output(&netlist, 0)])
        .unwrap();
    netlist
        .insert_gate(inv(), "c3".into(), &[g2.get_output(&netlist, 0)])
        .unwrap();
    assert_eq!(netlist.objects().len(), 6);
    assert!(netlist.clean().unwrap());
    assert_eq!(netlist.objects().len(), 3);
    assert!(!netlist.clean_once().unwrap());
    assert_eq!(netlist.objects().len(), 3);
}

#[test]
fn clean_keeps_connections_after_renumbering() {
    let mut netlist = GateNetlist::new("renumber".to_string());
    let a = netlist.insert_input("a".into());
    let b = netlist.insert_input("b".into());
    let inv = Gate::new_logical("INV".into(), vec!["I".into()], "O".into());
    netlist.insert_gate(inv, "dead".into(), &[a]).unwrap();
    let and = netlist.insert_gate(and_gate(), "live".into(), &[a, b]).unwrap();
    and.expose_with_name(&mut netlist, "y".into());
    assert!(netlist.clean_once().unwrap());
    let objs = netlist.objects();
    assert_eq!(objs.len(), 3);
    let live = objs[2];
    assert_eq!(
        live.get_instance_name(&netlist).unwrap().get_name(),
        "live"
    );
    assert_eq!(live.get_driver(&netlist, 0), Some(objs[0]));
    assert_eq!(live.get_driver(&netlist, 1), Some(objs[1]));
    let outs = netlist.outputs();
    assert_eq!(outs.len(), 1);
    assert_eq!(outs[0].0.unwrap(), live);
}

#[test]
fn disconnect_and_connect() {
    let mut netlist = get_simple_example();
    let gate = netlist.last().unwrap();
    let port = gate.get_input(&netlist, 0);
    let prev = port.disconnect(&mut netlist).unwrap();
    assert!(port.get_driver(&netlist).is_none());
    assert!(!gate.is_fully_connected(&netlist));
    port.connect(&mut netlist, prev);
    assert!(gate.is_fully_connected(&netlist));
    assert_eq!(port.get_driver(&netlist), Some(prev));
}

#[test]
fn insert_gate_operand_count_error() {
    let mut netlist = get_simple_example();
    let a = netlist.inputs()[0];
    let r = netlist.insert_gate(and_gate(), "bad".into(), &[a]);
    assert!(r.is_err());
    assert_eq!(netlist.objects().len(), 3);
}

#[test]
fn expose_input_without_name_is_error() {
    let mut netlist = get_simple_example();
    let a = netlist.inputs()[0];
    assert!(netlist.expose_net(a).is_err());
    let gate = netlist.last().unwrap();
    let other = "zzz".into();
    assert!(gate.expose_net(&mut netlist, &other).is_err());
}

#[test]
fn replaced_gate_becomes_dead() {
    let mut netlist = GateNetlist::new("rep".to_string());
    let a = netlist.insert_input("a".into());
    let b = netlist.insert_input("b".into());
    let inv = || Gate::new_logical("INV".into(), vec!["I".into()], "O".into());
    let gate_a = netlist.insert_gate(inv(), "ga".into(), &[a]).unwrap();
    let gate_b = netlist
        .insert_gate(and_gate(), "gb".into(), &[gate_a.get_output(&netlist, 0), b])
        .unwrap();
    gate_b.expose_with_name(&mut netlist, "y".into());
    let gate_c = netlist.insert_gate(inv(), "gc".into(), &[b]).unwrap();
    assert!(gate_a.replace_uses_with(&mut netlist, &gate_c).is_ok());
    assert_eq!(gate_b.get_driver(&netlist, 0), Some(gate_c));
    assert!(!gate_a.drives_an_top_output(&netlist));
    assert!(netlist.clean().unwrap());
    assert_eq!(netlist.objects().len(), 4);
    let names: Vec<String> = netlist
        .objects()
        .iter()
        .filter_map(|n| n.get_instance_name(&netlist))
        .map(|id| id.get_name().to_string())
        .collect();
    assert_eq!(names, vec!["gb".to_string(), "gc".to_string()]);
}

#[test]
fn exposing_twice_rebinds_the_output() {
    let mut netlist = get_simple_example();
    let gate = netlist.last().unwrap();
    gate.expose_with_name(&mut netlist, "z".into());
    let outs = netlist.outputs();
    assert_eq!(outs.len(), 1);
    assert_eq!(outs[0].1, "z".into());
    assert_eq!(gate.get_identifier(&netlist).get_name(), "inst_0_Y");
    assert!(outs[0].0.is_top_level_output(&netlist));
}
