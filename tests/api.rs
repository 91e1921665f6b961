use safety_net::circuit::{Identifier, Net};
use safety_net::netlist::{DrivenNet, Gate, GateNetlist, Netlist};

fn assert_verilog_eq(left: &str, right: &str) {
    for (l, r) in left.lines().zip(right.lines()) {
        assert_eq!(l.trim(), r.trim());
    }
    assert_eq!(left.lines().count(), right.lines().count());
}

fn and_gate() -> Gate {
    Gate::new_logical("AND".into(), vec!["A".into(), "B".into()], "Y".into())
}

fn get_simple_example() -> GateNetlist {
    let mut netlist = Netlist::new("example".to_string());
    let a = netlist.insert_input("a".into());
    let b = netlist.insert_input("b".into());
    let instance = netlist
        .insert_gate(and_gate(), "inst_0".into(), &[a, b])
        .unwrap();
    instance.expose_with_name(&mut netlist, "y".into());
    netlist
}

#[test]
fn test_io() {
    let netlist = get_simple_example();
    let netlist = netlist.reclaim().unwrap();

    assert_eq!(netlist.inputs().len(), 2);
    assert_eq!(netlist.outputs().len(), 1);

    let (output, o_net) = netlist.outputs().first().unwrap().clone();
    let o_port = output.get_port(&netlist);
    let o_port_alt = output
        .unwrap()
        .get_instance_type(&netlist)
        .unwrap()
        .get_single_output_port()
        .clone();

    assert_eq!(o_port, o_port_alt);
    let correct = Net::new_logic("Y".into());
    assert_eq!(o_port, correct);

    let correct = Net::new_logic("y".into());
    assert_eq!(o_net, correct);

    let correct = Net::new_logic("inst_0_Y".into());
    assert_eq!(output.as_net(&netlist).clone(), correct);
}

#[test]
fn test_get_net_from_obj() {
    let netlist = get_simple_example();
    let gate = netlist.last().unwrap();
    let obj = gate.get_obj(&netlist);
    let net = gate.get_net(&netlist, 0).clone();
    let also_net = obj.get_net(0).clone();
    let still_net = obj.get_single_net().clone();
    assert_eq!(net, also_net);
    assert_eq!(net, still_net);
}

#[test]
fn test_change_gate_correct() {
    let mut netlist = get_simple_example();
    let gate = netlist.last().unwrap();
    {
        let mut type_gate = gate.get_instance_type(&netlist).unwrap().clone();
        type_gate.set_gate_name("OR".into());
        gate.set_instance_type(&mut netlist, type_gate);
    }
    assert_verilog_eq(
        &netlist.to_verilog(),
        "module example (
           a,
           b,
           y
         );
           input a;
           wire a;
           input b;
           wire b;
           output y;
           wire y;
           wire inst_0_Y;
           OR inst_0 (
             .A(a),
             .B(b),
             .Y(inst_0_Y)
           );
           assign y = inst_0_Y;
         endmodule\n",
    );
}

fn full_adder() -> Gate {
    Gate::new_logical_multi(
        "FA".into(),
        vec!["CIN".into(), "A".into(), "B".into()],
        vec!["S".into(), "COUT".into()],
    )
}

fn ripple_adder() -> GateNetlist {
    let mut netlist = Netlist::new("ripple_adder".to_string());
    let bitwidth = 4;
    let a = netlist.insert_input_escaped_logic_bus("a".to_string(), bitwidth);
    let b = netlist.insert_input_escaped_logic_bus("b".to_string(), bitwidth);
    let mut carry: DrivenNet = netlist.insert_input("cin".into());
    for (i, (a, b)) in a.into_iter().zip(b.into_iter()).enumerate() {
        let fa = netlist
            .insert_gate(full_adder(), Identifier::new(format!("fa_{i}")), &[carry, a, b])
            .unwrap();
        let sum = fa.get_net(&netlist, 0).clone();
        fa.expose_net(&mut netlist, &sum).unwrap();
        carry = fa.find_output(&netlist, &"COUT".into()).unwrap();
        if i == bitwidth - 1 {
            fa.get_output(&netlist, 1)
                .expose_with_name(&mut netlist, "cout".into())
                .unwrap();
        }
    }
    netlist.reclaim().unwrap()
}

#[test]
fn ripple_adder_wiring() {
    let netlist = ripple_adder();
    assert!(netlist.verify().is_ok());
    assert_eq!(netlist.objects().len(), 13);
    assert_eq!(netlist.outputs().len(), 5);
    let last = netlist.last().unwrap();
    assert!(last.is_multi_output(&netlist));
    assert_eq!(last.get_instance_name(&netlist).unwrap().get_name(), "fa_3");
    let carry_in = last.get_driver_net(&netlist, 0).unwrap();
    assert_eq!(carry_in, Net::new_logic("fa_2_COUT".into()));
    let text = netlist.to_verilog();
    assert!(text.contains("  FA fa_0 (\n    .CIN(cin),\n    .A(\\a[0] ),\n    .B(\\b[0] ),\n"));
    assert!(text.contains("  assign cout = fa_3_COUT;\n"));
}
