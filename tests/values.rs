use safety_net::attribute::{Attribute, Bits, Parameter};
use safety_net::circuit::{DataType, Identifier, IdentifierType, Net};
use safety_net::netlist::Gate;

#[test]
fn data_type_constructors() {
    assert_eq!(DataType::boolean(), DataType::TwoState);
    assert_eq!(DataType::tristate(), DataType::ThreeState);
    assert_eq!(DataType::fourstate(), DataType::FourState);
    assert_eq!(DataType::logic(), DataType::FourState);
}

#[test]
fn net_accessors() {
    let mut n = Net::new(Identifier::from("x"), DataType::TwoState);
    assert_eq!(n.get_type(), &DataType::TwoState);
    n.set_identifier("y".into());
    assert_eq!(n.get_identifier().get_name(), "y");
    let m = n.with_name("z[1]".to_string());
    assert!(m.get_identifier().is_escaped());
    assert_eq!(m.get_type(), &DataType::TwoState);
    assert_eq!(n.take_identifier().get_type(), IdentifierType::Normal);
    let bus = Net::new_escaped_logic_bus("d".to_string(), 3);
    assert_eq!(bus.len(), 3);
    assert_eq!(bus[2].emit_name(), "\\d[2] ");
}

#[test]
fn attribute_accessors() {
    let a = Attribute::new("k".to_string(), Some("v".to_string()));
    assert_eq!(a.key(), "k");
    assert_eq!(a.value(), &Some("v".to_string()));
    let list = Attribute::from_pairs(vec![("a".to_string(), None), ("b".to_string(), Some("1".to_string()))]);
    assert_eq!(list.len(), 2);
    assert_eq!(list[1].key(), "b");
}

#[test]
fn parameter_text() {
    assert_eq!(Parameter::Integer(42).emit(), "42");
    assert_eq!(Parameter::Integer(-7).emit(), "-7");
    assert_eq!(Parameter::Integer(i32::MIN).emit(), "-2147483648");
    let bits = Bits::from_bools(vec![true, false, false, true, true]);
    assert_eq!(bits.len(), 5);
    assert!(bits.get(3));
    assert_eq!(Parameter::BitVec(bits).emit(), "5'b11001");
}

#[test]
fn gate_ports() {
    let mut g = Gate::new_logical_multi("FA".into(), vec!["A".into()], vec!["S".into(), "C".into()]);
    assert_eq!(g.get_gate_name().get_name(), "FA");
    g.set_gate_name("HA".into());
    assert_eq!(g.get_gate_name().get_name(), "HA");
    let single = Gate::new_logical("INV".into(), vec!["I".into()], "O".into());
    assert_eq!(single.get_single_output_port(), &Net::new_logic("O".to_string()));
}
