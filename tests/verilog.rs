use safety_net::circuit::Identifier;
use safety_net::netlist::{Gate, GateNetlist, Netlist};

fn assert_verilog_eq(left: &str, right: &str) {
    for (l, r) in left.lines().zip(right.lines()) {
        assert_eq!(l.trim(), r.trim());
    }
    assert_eq!(left.lines().count(), right.lines().count());
}

fn and_gate() -> Gate {
    Gate::new_logical("AND".into(), vec!["A".into(), "B".into()], "Y".into())
}

fn get_simple_example() -> GateNetlist {
    let mut netlist = Netlist::new("example".to_string());
    let a = netlist.insert_input("a".into());
    let b = netlist.insert_input("b".into());
    let instance = netlist
        .insert_gate(and_gate(), "inst_0".into(), &[a, b])
        .unwrap();
    instance.expose_with_name(&mut netlist, "y".into());
    netlist.reclaim().unwrap()
}

#[test]
fn min_module() {
    let mut netlist = GateNetlist::new("min_module".to_string());
    let a = netlist.insert_input("a".into());
    a.expose_with_name(&mut netlist, "y".into());
    assert!(netlist.verify().is_ok());
    assert_verilog_eq(
        &netlist.to_verilog(),
        "module min_module (
           a,
           y
         );
           input a;
           wire a;
           output y;
           wire y;
           assign y = a;
         endmodule\n",
    );
}

#[test]
fn test_netlist_first() {
    let mut netlist = GateNetlist::new("min_module".to_string());
    let a = netlist.insert_input("a".into());
    a.clone().expose_with_name(&mut netlist, "y".into());
    let a_too = netlist.last().unwrap();
    let also_a = netlist.first().unwrap();
    assert_eq!(a_too, also_a);
    assert_eq!(a.unwrap(), also_a);
}

#[test]
fn test_netlist_find() {
    let mut netlist = GateNetlist::new("min_module".to_string());
    let a = netlist.insert_input("a".into());
    a.expose_with_name(&mut netlist, "y".into());
    assert!(netlist.find_net(&"a".into()).is_some());
    assert!(netlist.find_net(&"b".into()).is_none());
}

#[test]
fn simple_gate_module() {
    let netlist = get_simple_example();
    assert!(netlist.verify().is_ok());
    assert_verilog_eq(
        &netlist.to_verilog(),
        "module example (
           a,
           b,
           y
         );
           input a;
           wire a;
           input b;
           wire b;
           output y;
           wire y;
           wire inst_0_Y;
           AND inst_0 (
             .A(a),
             .B(b),
             .Y(inst_0_Y)
           );
           assign y = inst_0_Y;
         endmodule\n",
    );
}

#[test]
fn dont_touch_gate() {
    let mut netlist = get_simple_example();
    assert!(netlist.verify().is_ok());
    netlist
        .last()
        .unwrap()
        .set_attribute(&mut netlist, "dont_touch".to_string());
    assert_verilog_eq(
        &netlist.to_verilog(),
        "module example (
           a,
           b,
           y
         );
           input a;
           wire a;
           input b;
           wire b;
           output y;
           wire y;
           wire inst_0_Y;
           (* dont_touch *)
           AND inst_0 (
             .A(a),
             .B(b),
             .Y(inst_0_Y)
           );
           assign y = inst_0_Y;
         endmodule\n",
    );
}

#[test]
fn simple_gate_attribute() {
    let mut netlist = get_simple_example();
    assert!(netlist.verify().is_ok());
    let gate = netlist.last().unwrap();
    gate.insert_attribute(&mut netlist, "dont_touch".to_string(), "true".to_string());
    gate.clear_attribute(&mut netlist, &"dont_touch".to_string());
    assert_verilog_eq(
        &netlist.to_verilog(),
        "module example (
           a,
           b,
           y
         );
           input a;
           wire a;
           input b;
           wire b;
           output y;
           wire y;
           wire inst_0_Y;
           AND inst_0 (
             .A(a),
             .B(b),
             .Y(inst_0_Y)
           );
           assign y = inst_0_Y;
         endmodule\n",
    );
}

#[test]
fn attribute_with_value_is_emitted() {
    let mut netlist = get_simple_example();
    let gate = netlist.last().unwrap();
    assert_eq!(gate.insert_attribute(&mut netlist, "keep".to_string(), "true".to_string()), None);
    assert_eq!(
        gate.insert_attribute(&mut netlist, "keep".to_string(), "yes".to_string()),
        Some(Some("true".to_string()))
    );
    let text = netlist.to_verilog();
    assert!(text.contains("  (* keep = \"yes\" *)\n  AND inst_0 (\n"));
    assert_eq!(gate.attributes(&netlist).len(), 1);
}

#[test]
fn escaped_and_sliced_identifiers_render() {
    let esc = Identifier::new("\\weird".to_string());
    assert!(esc.is_escaped());
    assert_eq!(esc.get_name(), "weird");
    assert_eq!(esc.emit_name(), "\\weird ");
    let special = Identifier::new("a+b".to_string());
    assert!(special.is_escaped());
    assert_eq!(special.emit_name(), "\\a+b ");
    let plain = Identifier::new("abc".to_string());
    assert!(!plain.is_escaped());
    assert_eq!(plain.emit_name(), "abc");
    let bit = Identifier::new_bit_slice("bus".to_string(), 12);
    assert!(bit.is_sliced());
    assert_eq!(bit.get_bit_index(), Some(12));
    assert_eq!(bit.emit_name(), "bus[12]");
}
