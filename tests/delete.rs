use safety_net::netlist::{Gate, Netlist};

#[test]
fn test_delete_netlist() {
    let mut netlist = Netlist::new("simple_example".to_string());

    let input1 = netlist.insert_input("input1".into());
    let input2 = netlist.insert_input("input2".into());

    let instance = netlist
        .insert_gate(
            Gate::new_logical(
                "AND".into(),
                vec!["A".to_string(), "B".to_string()],
                "Y".to_string(),
            ),
            "my_and".into(),
            &[input1.clone(), input2.clone()],
        )
        .unwrap();

    let instance = instance.expose_as_output(&mut netlist).unwrap();
    instance.delete_uses(&mut netlist).unwrap();
    let res = netlist.clean();
    assert!(res.is_ok());
    assert_eq!(netlist.objects().len(), 2);
    assert!(netlist.outputs().is_empty());
}

#[test]
fn main_test_simple_example() {
    let mut netlist = Netlist::new("simple_example".to_string());
    let input1 = netlist.insert_input("input1".into());
    let input2 = netlist.insert_input("input2".into());
    let and = Gate::new_logical(
        "AND".into(),
        vec!["A".to_string(), "B".to_string()],
        "Y".to_string(),
    );
    let instance = netlist
        .insert_gate(and, "my_and".into(), &[input1, input2])
        .unwrap();
    instance.expose_as_output(&mut netlist).unwrap();
    let netlist = netlist.reclaim().unwrap();
    assert_eq!(netlist.get_name(), "simple_example");
    assert_eq!(netlist.get_input_ports().len(), 2);
    assert_eq!(netlist.get_output_ports().len(), 1);
    assert_eq!(netlist.objects().len(), 3);
}
