use safety_net::attribute::dont_touch_filter;
use safety_net::multigraph::MultiDiGraph;
use safety_net::netlist::Operand;
use safety_net::circuit::{Identifier, Net};
use safety_net::graph::{DFSIterator, FanOutTable, SimpleCombDepth};
use safety_net::netlist::{DrivenNet, Gate, GateNetlist, Netlist};

fn and_gate() -> Gate {
    Gate::new_logical("AND".into(), vec!["A".into(), "B".into()], "Y".into())
}

fn get_simple_example() -> GateNetlist {
    let mut netlist = Netlist::new("example".to_string());
    let a = netlist.insert_input("a".into());
    let b = netlist.insert_input("b".into());
    let instance = netlist
        .insert_gate(and_gate(), "inst_0".into(), &[a, b])
        .unwrap();
    instance.expose_with_name(&mut netlist, "y".into());
    netlist
}

#[test]
fn test_detect_cycles() {
    let mut netlist = get_simple_example();

    // No cycles yet.
    let dfs_iter = DFSIterator::new(&netlist, netlist.last().unwrap());
    assert!(!dfs_iter.detect_cycles(&netlist));

    let input = netlist.inputs()[0];
    let inverter = Gate::new_logical("INV".into(), vec!["I".into()], "O".into());
    let inverted = netlist
        .insert_gate(inverter, "inst_0".into(), &[input.clone()])
        .unwrap();
    assert!(netlist.replace_net_uses(input.unwrap(), &inverted).is_ok());

    // Now there is a cycle: the inverter drives its own input.
    let dfs_iter = DFSIterator::new(&netlist, netlist.last().unwrap());
    assert!(dfs_iter.detect_cycles(&netlist));
    assert!(SimpleCombDepth::build(&netlist).is_err());
}

#[test]
fn test_comb_depth() {
    let netlist = get_simple_example();
    let depth_info = netlist.get_analysis::<SimpleCombDepth>();
    assert!(depth_info.is_ok());
    let depth_info = depth_info.unwrap();

    let gate = netlist.last().unwrap();

    assert_eq!(depth_info.get_comb_depth(&gate), Some(1));
    assert_eq!(depth_info.get_max_depth(), 1);
    let a = netlist.first().unwrap();
    assert_eq!(depth_info.get_comb_depth(&a), Some(0));
}

#[test]
fn dfs_visits_drivers() {
    let netlist = get_simple_example();
    let mut dfs = DFSIterator::new(&netlist, netlist.last().unwrap());
    let mut seen = Vec::new();
    while let Some(n) = dfs.next(&netlist) {
        seen.push(n);
    }
    assert!(!dfs.check_cycles());
    let objs = netlist.objects();
    assert_eq!(seen, vec![objs[2], objs[1], objs[0]]);
}

#[test]
fn dfs_flags_reconvergence() {
    let mut netlist = GateNetlist::new("reconv".to_string());
    let a = netlist.insert_input("a".into());
    let g = netlist.insert_gate(and_gate(), "g".into(), &[a, a]).unwrap();
    let dfs = DFSIterator::new(&netlist, g);
    assert!(dfs.detect_cycles(&netlist));
}

fn full_adder() -> Gate {
    Gate::new_logical_multi(
        "FA".into(),
        vec!["CIN".into(), "A".into(), "B".into()],
        vec!["S".into(), "COUT".into()],
    )
}

fn ripple_adder() -> GateNetlist {
    let mut netlist = Netlist::new("ripple_adder".to_string());
    let bitwidth = 4;
    let a = netlist.insert_input_escaped_logic_bus("a".to_string(), bitwidth);
    let b = netlist.insert_input_escaped_logic_bus("b".to_string(), bitwidth);
    let mut carry: DrivenNet = netlist.insert_input("cin".into());
    for (i, (a, b)) in a.into_iter().zip(b.into_iter()).enumerate() {
        let fa = netlist
            .insert_gate(full_adder(), Identifier::new(format!("fa_{i}")), &[carry, a, b])
            .unwrap();
        let net = fa.get_net(&netlist, 1).clone();
        fa.expose_net(&mut netlist, &net).unwrap();
        carry = fa.get_output(&netlist, 0);
        if i == bitwidth - 1 {
            fa.get_output(&netlist, 0)
                .expose_with_name(&mut netlist, "cout".into())
                .unwrap();
        }
    }
    netlist.reclaim().unwrap()
}

#[test]
fn fanout_table() {
    let netlist = ripple_adder();
    let analysis = FanOutTable::build(&netlist);
    assert!(analysis.is_ok());
    let analysis = analysis.unwrap();
    assert!(netlist.verify().is_ok());

    for item in netlist.objects().into_iter().filter(|o| !o.is_an_input(&netlist)) {
        // Sum bit has no users (it is a direct output)
        assert!(
            analysis
                .get_net_users(item.get_output(&netlist, 1).as_net(&netlist))
                .is_empty(),
            "Sum bit should not have users"
        );

        assert!(
            item.get_instance_name(&netlist).is_some(),
            "Item should have a name. Filtered inputs"
        );

        let net = item.get_output(&netlist, 0).as_net(&netlist).clone();
        let cout_users = analysis.get_net_users(&net);
        if item.get_instance_name(&netlist).unwrap().get_name() != "fa_3" {
            assert!(!cout_users.is_empty(), "Sum bit should have users");
        }

        assert!(cout_users.len() <= 1, "Sum bit should have 1 or 0 user");
    }
}

#[test]
fn carry_chain_depths() {
    let mut netlist = Netlist::new("chain".to_string());
    let a = netlist.insert_input_escaped_logic_bus("a".to_string(), 4);
    let b = netlist.insert_input_escaped_logic_bus("b".to_string(), 4);
    let mut carry: DrivenNet = netlist.insert_input("cin".into());
    let mut stages = Vec::new();
    for i in 0..4 {
        let fa = netlist
            .insert_gate(full_adder(), Identifier::new(format!("fa_{i}")), &[carry, a[i], b[i]])
            .unwrap();
        let sum = fa.get_output(&netlist, 0);
        netlist.expose_net(sum).unwrap();
        carry = fa.find_output(&netlist, &"COUT".into()).unwrap();
        stages.push(fa);
    }
    netlist.expose_net_with_name(carry, "cout".into());
    let table = FanOutTable::build(&netlist).unwrap();
    for (i, fa) in stages.iter().enumerate() {
        let cout = fa.get_output(&netlist, 1).as_net(&netlist).clone();
        let users = table.get_net_users(&cout);
        if i < 3 {
            assert_eq!(users, vec![stages[i + 1]]);
        } else {
            assert!(users.is_empty());
            assert!(table.net_has_uses(&cout));
        }
    }
    let depth = SimpleCombDepth::build(&netlist).unwrap();
    let mut prev = 0;
    for (i, fa) in stages.iter().enumerate() {
        let d = depth.get_comb_depth(fa).unwrap();
        assert_eq!(d, i + 1);
        assert!(d >= prev);
        prev = d;
    }
    assert_eq!(depth.get_max_depth(), 4);
    let unused: Net = "nothing".into();
    assert!(!table.net_has_uses(&unused));
}

#[test]
fn test_petgraph() {
    let netlist = get_simple_example();

    let petgraph = MultiDiGraph::build(&netlist);
    assert!(petgraph.is_ok());
    let petgraph = petgraph.unwrap();
    let graph = petgraph.get_graph();
    // Outputs are a pseudo node
    assert_eq!(graph.node_count(), 4);
    assert_eq!(graph.edge_count(), 3);
    assert_eq!(petgraph.node_count(), 4);
    assert_eq!(petgraph.edge_count(), 3);
}

#[test]
fn petgraph_needs_verified_netlist() {
    let mut netlist = GateNetlist::new("dup".to_string());
    netlist.insert_input("a".into());
    netlist.insert_input("a".into());
    assert!(MultiDiGraph::build(&netlist).is_err());
}

#[test]
fn test_attr_filter() {
    let mut netlist = GateNetlist::new("example".to_string());

    let a: Vec<_> = (0..4)
        .map(|i| netlist.insert_input(Net::new_logic(format!("input_{}", i))))
        .collect::<Vec<_>>();

    let inst_0 = netlist
        .insert_gate(and_gate(), "inst_0".into(), &[a[0].clone(), a[1].clone()])
        .unwrap();

    let inst_1 = netlist
        .insert_gate(and_gate(), "inst_1".into(), &[a[1].clone(), a[2].clone()])
        .unwrap();

    let i0 = inst_0.get_output(&netlist, 0);
    let i1 = inst_1.get_output(&netlist, 0);
    netlist
        .insert_gate(and_gate(), "inst_2".into(), &[i0, i1])
        .unwrap();

    inst_1.set_attribute(&mut netlist, "dont_touch".into());
    let filter = dont_touch_filter(&netlist);
    for dt in filter.nodes() {
        assert!(dt == inst_1);
    }
    assert_eq!(filter.nodes().len(), 1);
    assert!(filter.has(&inst_1));
    assert!(!filter.has(&inst_0));
    assert_eq!(filter.keys(), &["dont_touch".to_string()]);
}

#[test]
fn matches_selects_instances_by_type() {
    let mut netlist = get_simple_example();
    let a = netlist.inputs()[0];
    let inv = Gate::new_logical("INV".into(), vec!["I".into()], "O".into());
    let n = netlist.insert_gate(inv, "n".into(), &[a]).unwrap();
    let found = netlist.matches(|g: &Gate| g.get_gate_name().get_name() == "INV");
    assert_eq!(found, vec![n]);
    let ands = netlist.matches(|g: &Gate| g.get_gate_name().get_name() == "AND");
    assert_eq!(ands.len(), 1);
}

#[test]
fn operand_keys_round_trip() {
    assert_eq!(Operand::DirectIndex(12).to_key(), "12");
    assert_eq!(Operand::CellIndex(3, 1).to_key(), "3.1");
    assert_eq!(Operand::from_key("12"), Some(Operand::DirectIndex(12)));
    assert_eq!(Operand::from_key("3.1"), Some(Operand::CellIndex(3, 1)));
    assert_eq!(Operand::from_key(""), None);
    assert_eq!(Operand::from_key("01"), None);
    assert_eq!(Operand::from_key("1.x"), None);
    assert_eq!(Operand::from_key("99999999999999999999999"), None);
    assert_eq!(Operand::DirectIndex(7).remap(2), Operand::DirectIndex(2));
    assert_eq!(Operand::CellIndex(7, 1).root(), 7);
    assert_eq!(Operand::CellIndex(7, 1).secondary(), 1);
}
