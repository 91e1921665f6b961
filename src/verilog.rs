//! Emission of a netlist as a Verilog module.

use vstd::prelude::*;
use vstd::string::*;
use crate::attribute::{Attribute, Parameter, parameter_text};
use crate::circuit::{Identifier, IdentifierView, Instantiable, Net, NetView, Object, emitted, object_nets};
use crate::netlist::{
    inst_at, DrivenNet, NetRef, Netlist, NetlistView, input_handles, is_input_at, lemma_input_handles_valid, nets_at,
    op_root, op_secondary,
};
use crate::text::owned;

verus! {

/// The nets of the principal inputs, in store order.
pub open spec fn input_nets<I>(v: NetlistView<I>) -> Seq<NetView> {
    input_handles(v, v.nodes.len() as int).map_values(|h: (nat, nat, u64)| nets_at(v, h.0 as int)[0]@)
}

/// The nets of the first `n` nodes that are instances, in store and output order.
pub open spec fn inst_nets<I>(v: NetlistView<I>, n: int) -> Seq<NetView>
    decreases n,
{
    if n <= 0 {
        Seq::empty()
    } else if is_input_at(v, n - 1) {
        inst_nets(v, n - 1)
    } else {
        inst_nets(v, n - 1) + nets_at(v, n - 1).map_values(|x: Net| x@)
    }
}

/// The port list entries of the inputs: `  <name>,`.
pub open spec fn input_list(ins: Seq<NetView>) -> Seq<char>
    decreases ins.len(),
{
    if ins.len() == 0 {
        Seq::empty()
    } else {
        "  "@ + emitted(ins[0].0) + ",\n"@ + input_list(ins.drop_first())
    }
}

/// The port list entries of the outputs; the last one has no comma.
pub open spec fn output_list(outs: Seq<NetView>) -> Seq<char>
    decreases outs.len(),
{
    if outs.len() == 0 {
        Seq::empty()
    } else if outs.len() == 1 {
        "  "@ + emitted(outs[0].0) + "\n"@
    } else {
        "  "@ + emitted(outs[0].0) + ",\n"@ + output_list(outs.drop_first())
    }
}

/// The declarations of the inputs.
pub open spec fn input_decls(ins: Seq<NetView>) -> Seq<char>
    decreases ins.len(),
{
    if ins.len() == 0 {
        Seq::empty()
    } else {
        "  input "@ + emitted(ins[0].0) + ";\n"@ + "  wire "@ + emitted(ins[0].0) + ";\n"@ + input_decls(ins.drop_first())
    }
}

/// The declaration of a net not declared yet: an output port and its wire,
/// or a plain wire.
pub open spec fn decl_line(n: NetView, output: bool) -> Seq<char> {
    if output {
        "  output "@ + emitted(n.0) + ";\n"@ + "  wire "@ + emitted(n.0) + ";\n"@
    } else {
        "  wire "@ + emitted(n.0) + ";\n"@
    }
}

/// The declarations of the `items` that `declared` does not hold yet, each once.
pub open spec fn fresh_decls(items: Seq<NetView>, declared: Seq<NetView>, output: bool) -> Seq<char>
    decreases items.len(),
{
    if items.len() == 0 {
        Seq::empty()
    } else if declared.contains(items[0]) {
        fresh_decls(items.drop_first(), declared, output)
    } else {
        decl_line(items[0], output) + fresh_decls(items.drop_first(), declared.push(items[0]), output)
    }
}

/// The declared nets after declaring `items`.
pub open spec fn declared_after(items: Seq<NetView>, declared: Seq<NetView>) -> Seq<NetView>
    decreases items.len(),
{
    if items.len() == 0 {
        declared
    } else if declared.contains(items[0]) {
        declared_after(items.drop_first(), declared)
    } else {
        declared_after(items.drop_first(), declared.push(items[0]))
    }
}

/// One attribute line: `(* key *)` or `(* key = "value" *)`.
pub open spec fn attr_line(a: (Seq<char>, Option<Seq<char>>)) -> Seq<char> {
    match a.1 {
        Some(val) => "  (* "@ + a.0 + " = \""@ + val + "\" *)\n"@,
        None => "  (* "@ + a.0 + " *)\n"@,
    }
}

/// The attribute lines of a node, in order.
pub open spec fn attr_lines(attrs: Seq<(Seq<char>, Option<Seq<char>>)>) -> Seq<char>
    decreases attrs.len(),
{
    if attrs.len() == 0 {
        Seq::empty()
    } else {
        attr_line(attrs[0]) + attr_lines(attrs.drop_first())
    }
}

/// The parameter entries `    .<name>(<value>)`, the last without a comma.
pub open spec fn param_lines(ps: Seq<(IdentifierView, Seq<char>)>) -> Seq<char>
    decreases ps.len(),
{
    if ps.len() == 0 {
        Seq::empty()
    } else if ps.len() == 1 {
        "    ."@ + emitted(ps[0].0) + "("@ + ps[0].1 + ")\n"@
    } else {
        "    ."@ + emitted(ps[0].0) + "("@ + ps[0].1 + "),\n"@ + param_lines(ps.drop_first())
    }
}

/// The parameter block of an instance, if it has parameters.
pub open spec fn param_block(ps: Seq<(IdentifierView, Seq<char>)>) -> Seq<char> {
    if ps.len() == 0 {
        Seq::empty()
    } else {
        "#(\n"@ + param_lines(ps) + "  ) "@
    }
}

/// The connections `    .<port>(<driver>),` of the connected input slots `j..` of node `i`.
pub open spec fn input_conns<I: Instantiable>(v: NetlistView<I>, i: int, j: int) -> Seq<char>
    decreases v.nodes[i].operands.len() - j,
{
    if j < 0 || j >= v.nodes[i].operands.len() {
        Seq::empty()
    } else {
        let rest = input_conns(v, i, j + 1);
        match v.nodes[i].operands[j] {
            Some(op) => "    ."@ + emitted(crate::netlist::inst_at(v, i).spec_input_ports()[j]@.0) + "("@
                + emitted(nets_at(v, op_root(op) as int)[op_secondary(op) as int]@.0) + "),\n"@ + rest,
            None => rest,
        }
    }
}

/// The connections `    .<port>(<net>)` of outputs `p..` of node `i`, the last without a comma.
pub open spec fn output_conns<I: Instantiable>(v: NetlistView<I>, i: int, p: int) -> Seq<char>
    decreases nets_at(v, i).len() - p,
{
    let nets = nets_at(v, i);
    if p < 0 || p >= nets.len() {
        Seq::empty()
    } else {
        "    ."@ + emitted(crate::netlist::inst_at(v, i).spec_output_ports()[p]@.0) + "("@ + emitted(nets[p]@.0) + ")"@
            + (if p == nets.len() - 1 { "\n"@ } else { ",\n"@ }) + output_conns(v, i, p + 1)
    }
}

/// The text of node `i`: nothing for a principal input; for an instance its
/// attributes, then `<type> [#(...)] <name> ( <connections> );`.
pub open spec fn instance_text<I: Instantiable>(v: NetlistView<I>, i: int) -> Seq<char> {
    match v.nodes[i].object {
        Object::Input(_) => Seq::empty(),
        Object::Instance(_, name, inst) => attr_lines(v.nodes[i].attributes) + "  "@ + emitted(inst.spec_name()) + " "@
            + param_block(inst.spec_parameters()) + emitted(name@) + " (\n"@ + input_conns(v, i, 0) + output_conns(v, i, 0)
            + "  );\n"@,
    }
}

/// The texts of nodes `i..`.
pub open spec fn instances_text<I: Instantiable>(v: NetlistView<I>, i: int) -> Seq<char>
    decreases v.nodes.len() - i,
{
    if i < 0 || i >= v.nodes.len() {
        Seq::empty()
    } else {
        instance_text(v, i) + instances_text(v, i + 1)
    }
}

/// The assignments of outputs `k..` whose bound net differs from the net that drives it.
pub open spec fn assigns<I>(v: NetlistView<I>, k: int) -> Seq<char>
    decreases v.outputs.len() - k,
{
    if k < 0 || k >= v.outputs.len() {
        Seq::empty()
    } else {
        let op = v.outputs[k].0;
        let driver = nets_at(v, op_root(op) as int)[op_secondary(op) as int]@;
        let rest = assigns(v, k + 1);
        if v.outputs[k].1 != driver {
            "  assign "@ + emitted(v.outputs[k].1.0) + " = "@ + emitted(driver.0) + ";\n"@ + rest
        } else {
            rest
        }
    }
}

/// The nets that the outputs are bound to, in output order.
pub open spec fn bound_nets<I>(v: NetlistView<I>) -> Seq<NetView> {
    v.outputs.map_values(|o: (crate::netlist::Operand, NetView)| o.1)
}

/// The Verilog text of a netlist.
pub open spec fn verilog<I: Instantiable>(v: NetlistView<I>) -> Seq<char> {
    let ins = input_nets(v);
    let outs = bound_nets(v);
    let after_outs = declared_after(outs, ins);
    "module "@ + v.name + " (\n"@ + input_list(ins) + output_list(outs) + ");\n"@ + input_decls(ins)
        + fresh_decls(outs, ins, true) + fresh_decls(inst_nets(v, v.nodes.len() as int), after_outs, false)
        + instances_text(v, 0) + assigns(v, 0) + "endmodule\n"@
}


/// The views of a list of nets.
pub open spec fn views(nets: Seq<Net>) -> Seq<NetView> {
    nets.map_values(|n: Net| n@)
}

fn input_list_text(ins: &Vec<Net>) -> (r: String)
    ensures
        r@ == input_list(views(ins@)),
{
    let ghost s = views(ins@);
    let mut acc = String::new();
    let mut k: usize = 0;
    proof {
        assert(s.subrange(0, s.len() as int) =~= s);
    }
    while k < ins.len()
        invariant
            s == views(ins@),
            k <= s.len(),
            acc@ + input_list(s.subrange(k as int, s.len() as int)) == input_list(s),
        decreases s.len() - k,
    {
        proof {
            let t = s.subrange(k as int, s.len() as int);
            assert(t.drop_first() =~= s.subrange(k + 1, s.len() as int));
            assert(t[0] == ins@[k as int]@);
        }
        let line = owned("  ").concat(ins[k].emit_name().as_str()).concat(",\n");
        let ghost before = acc@;
        acc = acc.concat(line.as_str());
        proof {
            let t = s.subrange(k as int, s.len() as int);
            assert(acc@ + input_list(s.subrange(k + 1, s.len() as int)) =~= before + input_list(t));
        }
        k = k + 1;
    }
    proof {
        assert(s.subrange(k as int, s.len() as int) =~= Seq::<NetView>::empty());
        assert(acc@ =~= acc@ + input_list(Seq::<NetView>::empty()));
    }
    acc
}

fn output_list_text(outs: &Vec<Net>) -> (r: String)
    ensures
        r@ == output_list(views(outs@)),
{
    let ghost s = views(outs@);
    let mut acc = String::new();
    let mut k: usize = 0;
    proof {
        assert(s.subrange(0, s.len() as int) =~= s);
    }
    while k < outs.len()
        invariant
            s == views(outs@),
            k <= s.len(),
            acc@ + output_list(s.subrange(k as int, s.len() as int)) == output_list(s),
        decreases s.len() - k,
    {
        proof {
            let t = s.subrange(k as int, s.len() as int);
            assert(t.drop_first() =~= s.subrange(k + 1, s.len() as int));
            assert(t[0] == outs@[k as int]@);
        }
        let line = if k + 1 == outs.len() {
            owned("  ").concat(outs[k].emit_name().as_str()).concat("\n")
        } else {
            owned("  ").concat(outs[k].emit_name().as_str()).concat(",\n")
        };
        let ghost before = acc@;
        acc = acc.concat(line.as_str());
        proof {
            let t = s.subrange(k as int, s.len() as int);
            if k + 1 == outs.len() {
                assert(s.subrange(k + 1, s.len() as int) =~= Seq::<NetView>::empty());
            }
            assert(acc@ + output_list(s.subrange(k + 1, s.len() as int)) =~= before + output_list(t));
        }
        k = k + 1;
    }
    proof {
        assert(s.subrange(k as int, s.len() as int) =~= Seq::<NetView>::empty());
        assert(acc@ =~= acc@ + output_list(Seq::<NetView>::empty()));
    }
    acc
}

fn input_decls_text(ins: &Vec<Net>) -> (r: String)
    ensures
        r@ == input_decls(views(ins@)),
{
    let ghost s = views(ins@);
    let mut acc = String::new();
    let mut k: usize = 0;
    proof {
        assert(s.subrange(0, s.len() as int) =~= s);
    }
    while k < ins.len()
        invariant
            s == views(ins@),
            k <= s.len(),
            acc@ + input_decls(s.subrange(k as int, s.len() as int)) == input_decls(s),
        decreases s.len() - k,
    {
        proof {
            let t = s.subrange(k as int, s.len() as int);
            assert(t.drop_first() =~= s.subrange(k + 1, s.len() as int));
            assert(t[0] == ins@[k as int]@);
        }
        let name = ins[k].emit_name();
        let line = owned("  input ").concat(name.as_str()).concat(";\n").concat("  wire ").concat(name.as_str()).concat(";\n");
        let ghost before = acc@;
        acc = acc.concat(line.as_str());
        proof {
            let t = s.subrange(k as int, s.len() as int);
            assert(acc@ + input_decls(s.subrange(k + 1, s.len() as int)) =~= before + input_decls(t));
        }
        k = k + 1;
    }
    proof {
        assert(s.subrange(k as int, s.len() as int) =~= Seq::<NetView>::empty());
        assert(acc@ =~= acc@ + input_decls(Seq::<NetView>::empty()));
    }
    acc
}

fn contains_net(declared: &Vec<Net>, n: &Net) -> (r: bool)
    ensures
        r == views(declared@).contains(n@),
{
    let mut k: usize = 0;
    while k < declared.len()
        invariant
            k <= declared@.len(),
            forall|q: int| 0 <= q < k ==> declared@[q]@ != n@,
        decreases declared@.len() - k,
    {
        if declared[k] == *n {
            proof {
                assert(views(declared@)[k as int] == n@);
            }
            return true;
        }
        k = k + 1;
    }
    proof {
        if views(declared@).contains(n@) {
            let q = choose|q: int| 0 <= q < views(declared@).len() && views(declared@)[q] == n@;
            assert(declared@[q]@ == n@);
        }
    }
    false
}

#[verifier::spinoff_prover]
fn fresh_decls_text(items: &Vec<Net>, declared: &mut Vec<Net>, output: bool) -> (r: String)
    ensures
        r@ == fresh_decls(views(items@), views(old(declared)@), output),
        views(final(declared)@) == declared_after(views(items@), views(old(declared)@)),
{
    let ghost s = views(items@);
    let ghost d0 = views(declared@);
    let mut acc = String::new();
    let mut k: usize = 0;
    proof {
        assert(s.subrange(0, s.len() as int) =~= s);
    }
    while k < items.len()
        invariant
            s == views(items@),
            k <= s.len(),
            acc@ + fresh_decls(s.subrange(k as int, s.len() as int), views(declared@), output) == fresh_decls(s, d0, output),
            declared_after(s.subrange(k as int, s.len() as int), views(declared@)) == declared_after(s, d0),
        decreases s.len() - k,
    {
        let ghost d = views(declared@);
        proof {
            let t = s.subrange(k as int, s.len() as int);
            assert(t.drop_first() =~= s.subrange(k + 1, s.len() as int));
            assert(t[0] == items@[k as int]@);
        }
        if !contains_net(declared, &items[k]) {
            let name = items[k].emit_name();
            let line = if output {
                owned("  output ").concat(name.as_str()).concat(";\n").concat("  wire ").concat(name.as_str()).concat(";\n")
            } else {
                owned("  wire ").concat(name.as_str()).concat(";\n")
            };
            let ghost before = acc@;
            acc = acc.concat(line.as_str());
            declared.push(items[k].clone());
            proof {
                let t = s.subrange(k as int, s.len() as int);
                assert(views(declared@) =~= d.push(s[k as int]));
                assert(acc@ + fresh_decls(s.subrange(k + 1, s.len() as int), views(declared@), output) =~= before + fresh_decls(t, d, output));
            }
        }
        k = k + 1;
    }
    proof {
        assert(s.subrange(k as int, s.len() as int) =~= Seq::<NetView>::empty());
        assert(acc@ =~= acc@ + fresh_decls(Seq::<NetView>::empty(), views(declared@), output));
    }
    acc
}

fn attr_lines_text(attrs: &Vec<Attribute>) -> (r: String)
    ensures
        r@ == attr_lines(attrs@.map_values(|a: Attribute| a@)),
{
    let ghost s = attrs@.map_values(|a: Attribute| a@);
    let mut acc = String::new();
    let mut k: usize = 0;
    proof {
        assert(s.subrange(0, s.len() as int) =~= s);
    }
    while k < attrs.len()
        invariant
            s == attrs@.map_values(|a: Attribute| a@),
            k <= s.len(),
            acc@ + attr_lines(s.subrange(k as int, s.len() as int)) == attr_lines(s),
        decreases s.len() - k,
    {
        proof {
            let t = s.subrange(k as int, s.len() as int);
            assert(t.drop_first() =~= s.subrange(k + 1, s.len() as int));
            assert(t[0] == attrs@[k as int]@);
        }
        let a = &attrs[k];
        let line = match a.value() {
            Some(val) => owned("  (* ").concat(a.key().as_str()).concat(" = \"").concat(val.as_str()).concat("\" *)\n"),
            None => owned("  (* ").concat(a.key().as_str()).concat(" *)\n"),
        };
        let ghost before = acc@;
        acc = acc.concat(line.as_str());
        proof {
            let t = s.subrange(k as int, s.len() as int);
            assert(acc@ + attr_lines(s.subrange(k + 1, s.len() as int)) =~= before + attr_lines(t));
        }
        k = k + 1;
    }
    proof {
        assert(s.subrange(k as int, s.len() as int) =~= Seq::<(Seq<char>, Option<Seq<char>>)>::empty());
        assert(acc@ =~= acc@ + attr_lines(Seq::<(Seq<char>, Option<Seq<char>>)>::empty()));
    }
    acc
}

/// The parameter entries of a list of parameters, in spec form.
pub open spec fn param_views(ps: Seq<(Identifier, Parameter)>) -> Seq<(IdentifierView, Seq<char>)> {
    ps.map_values(|p: (Identifier, Parameter)| (p.0@, parameter_text(p.1)))
}

fn param_block_text(ps: &Vec<(Identifier, Parameter)>) -> (r: String)
    ensures
        r@ == param_block(param_views(ps@)),
{
    let ghost s = param_views(ps@);
    if ps.len() == 0 {
        return String::new();
    }
    let mut acc = String::new();
    let mut k: usize = 0;
    proof {
        assert(s.subrange(0, s.len() as int) =~= s);
    }
    while k < ps.len()
        invariant
            s == param_views(ps@),
            k <= s.len(),
            acc@ + param_lines(s.subrange(k as int, s.len() as int)) == param_lines(s),
        decreases s.len() - k,
    {
        proof {
            let t = s.subrange(k as int, s.len() as int);
            assert(t.drop_first() =~= s.subrange(k + 1, s.len() as int));
            assert(t[0] == (ps@[k as int].0@, parameter_text(ps@[k as int].1)));
        }
        let head = owned("    .").concat(ps[k].0.emit_name().as_str()).concat("(").concat(ps[k].1.emit().as_str());
        let line = if k + 1 == ps.len() {
            head.concat(")\n")
        } else {
            head.concat("),\n")
        };
        let ghost before = acc@;
        acc = acc.concat(line.as_str());
        proof {
            let t = s.subrange(k as int, s.len() as int);
            if k + 1 == ps.len() {
                assert(s.subrange(k + 1, s.len() as int) =~= Seq::<(IdentifierView, Seq<char>)>::empty());
            }
            assert(acc@ + param_lines(s.subrange(k + 1, s.len() as int)) =~= before + param_lines(t));
        }
        k = k + 1;
    }
    proof {
        assert(s.subrange(k as int, s.len() as int) =~= Seq::<(IdentifierView, Seq<char>)>::empty());
        assert(acc@ =~= acc@ + param_lines(Seq::<(IdentifierView, Seq<char>)>::empty()));
    }
    owned("#(\n").concat(acc.as_str()).concat("  ) ")
}


#[verifier::spinoff_prover]
fn instance_text_exec<I: Instantiable>(netlist: &Netlist<I>, nr: NetRef) -> (r: String)
    requires
        netlist.wf(),
        crate::netlist::valid_ref(netlist@, nr@),
    ensures
        r@ == instance_text(netlist@, nr@.0 as int),
{
    let ghost v = netlist@;
    let ghost i = nr@.0 as int;
    proof {
        netlist.lemma_wf_view();
        assert(crate::netlist::node_wf(v.nodes[i]));
    }
    match nr.get_obj(netlist) {
        Object::Input(_) => String::new(),
        Object::Instance(nets, name, inst) => {
            let attrs = nr.attributes(netlist);
            let ps = inst.parameters();
            proof {
                assert(param_views(ps@) =~= inst.spec_parameters());
            }
            let mut acc = attr_lines_text(&attrs);
            acc = acc.concat("  ").concat(inst.get_name().emit_name().as_str()).concat(" ");
            acc = acc.concat(param_block_text(&ps).as_str());
            acc = acc.concat(name.emit_name().as_str()).concat(" (\n");
            let ghost head = acc@;
            let m = nr.get_num_input_ports(netlist);
            let mut j: usize = 0;
            proof {
                assert(inst_at(v, i) == *inst);
            }
            while j < m
                invariant
                    netlist.wf(),
                    v == netlist@,
                    crate::netlist::valid_ref(v, nr@),
                    i == nr@.0 as int,
                    crate::netlist::node_wf(v.nodes[i]),
                    v.nodes[i].object == Object::Instance(*nets, *name, *inst),
                    m == v.nodes[i].operands.len(),
                    m == inst.spec_input_ports().len(),
                    j <= m,
                    acc@ + input_conns(v, i, j as int) == head + input_conns(v, i, 0),
                decreases m - j,
            {
                match nr.get_driver_net(netlist, j) {
                    Some(dn) => {
                        let port = inst.get_input_port(j);
                        let line = owned("    .").concat(port.get_identifier().emit_name().as_str()).concat("(")
                            .concat(dn.emit_name().as_str()).concat("),\n");
                        let ghost before = acc@;
                        acc = acc.concat(line.as_str());
                        proof {
                            assert(acc@ + input_conns(v, i, j + 1) =~= before + input_conns(v, i, j as int));
                        }
                    },
                    None => {},
                }
                j = j + 1;
            }
            proof {
                assert(input_conns(v, i, m as int) == Seq::<char>::empty());
                assert(acc@ =~= head + input_conns(v, i, 0));
            }
            let ghost head2 = acc@;
            let np = nets.len();
            let mut p: usize = 0;
            while p < np
                invariant
                    v.nodes[i].object == Object::Instance(*nets, *name, *inst),
                    crate::netlist::node_wf(v.nodes[i]),
                    np == nets@.len(),
                    np == inst.spec_output_ports().len(),
                    p <= np,
                    acc@ + output_conns(v, i, p as int) == head2 + output_conns(v, i, 0),
                decreases np - p,
            {
                let port = inst.get_output_port(p);
                let head_line = owned("    .").concat(port.get_identifier().emit_name().as_str()).concat("(")
                    .concat(nets[p].emit_name().as_str()).concat(")");
                let line = if p + 1 == np { head_line.concat("\n") } else { head_line.concat(",\n") };
                let ghost before = acc@;
                acc = acc.concat(line.as_str());
                proof {
                    assert(acc@ + output_conns(v, i, p + 1) =~= before + output_conns(v, i, p as int));
                }
                p = p + 1;
            }
            proof {
                assert(output_conns(v, i, np as int) == Seq::<char>::empty());
            }
            acc = acc.concat("  );\n");
            proof {
                assert(acc@ =~= instance_text(v, i));
            }
            acc
        },
    }
}

fn assigns_text<I: Instantiable>(netlist: &Netlist<I>) -> (r: String)
    requires
        netlist.wf(),
    ensures
        r@ == assigns(netlist@, 0),
{
    let ghost v = netlist@;
    let outs = netlist.outputs();
    let mut acc = String::new();
    let mut k: usize = 0;
    while k < outs.len()
        invariant
            netlist.wf(),
            v == netlist@,
            outs@.len() == v.outputs.len(),
            forall|q: int| 0 <= q < outs@.len() ==> (#[trigger] outs@[q]).0@ == (op_root(v.outputs[q].0), op_secondary(v.outputs[q].0), v.epoch)
                && outs@[q].1@ == v.outputs[q].1,
            k <= outs@.len(),
            acc@ + assigns(v, k as int) == assigns(v, 0),
        decreases outs@.len() - k,
    {
        proof {
            netlist.lemma_output_valid(k as int);
        }
        let driver = outs[k].0.as_net(netlist);
        let bound = &outs[k].1;
        if !(*bound == *driver) {
            let line = owned("  assign ").concat(bound.emit_name().as_str()).concat(" = ").concat(driver.emit_name().as_str()).concat(";\n");
            let ghost before = acc@;
            acc = acc.concat(line.as_str());
            proof {
                assert(acc@ + assigns(v, k + 1) =~= before + assigns(v, k as int));
            }
        }
        k = k + 1;
    }
    proof {
        assert(assigns(v, k as int) == Seq::<char>::empty());
        assert(acc@ =~= acc@ + assigns(v, k as int));
    }
    acc
}

impl<I: Instantiable> Netlist<I> {
    /// Renders the netlist as a Verilog module: the port list (inputs in
    /// store order, then outputs), the input, output and wire declarations
    /// (each net once), the instances with their attributes, parameters and
    /// connections, and an assignment for every output whose bound net
    /// differs from the net that drives it.
    #[verifier::spinoff_prover]
    pub fn to_verilog(&self) -> (r: String)
        requires
            self.wf(),
        ensures
            r@ == verilog(self@),
    {
        let ghost v = self@;
        let ins = self.get_input_ports();
        proof {
            lemma_input_handles_valid(v, v.nodes.len() as int);
            assert(views(ins@) =~= input_nets(v));
        }
        let outs = self.get_output_ports();
        proof {
            assert(views(outs@) =~= bound_nets(v));
        }
        let mut inst_nets_v: Vec<Net> = Vec::new();
        let objs = self.objects();
        let mut i: usize = 0;
        proof {
            assert(views(inst_nets_v@) =~= inst_nets(v, 0));
        }
        while i < objs.len()
            invariant
                v == self@,
                objs@.len() == v.nodes.len(),
                forall|q: int| 0 <= q < objs@.len() ==> (#[trigger] objs@[q])@ == (q as nat, v.epoch),
                i <= objs@.len(),
                views(inst_nets_v@) == inst_nets(v, i as int),
            decreases objs@.len() - i,
        {
            let nr = objs[i];
            if !nr.is_an_input(self) {
                let ns = nr.nets(self);
                let ghost before = inst_nets_v@;
                let mut p: usize = 0;
                while p < ns.len()
                    invariant
                        p <= ns@.len(),
                        views(inst_nets_v@) == views(before) + views(ns@.subrange(0, p as int)),
                    decreases ns@.len() - p,
                {
                    let ghost prev = inst_nets_v@;
                    let c = ns[p].clone();
                    let ghost cv = c@;
                    inst_nets_v.push(c);
                    proof {
                        assert(inst_nets_v@ == prev.push(c));
                        assert(views(inst_nets_v@) =~= views(prev).push(cv));
                        assert(views(ns@.subrange(0, p + 1)) =~= views(ns@.subrange(0, p as int)).push(ns@[p as int]@));
                        assert(views(inst_nets_v@) =~= views(before) + views(ns@.subrange(0, p + 1)));
                    }
                    p = p + 1;
                }
                proof {
                    assert(views(ns@.subrange(0, ns@.len() as int)) =~= nets_at(v, i as int).map_values(|x: Net| x@));
                }
            }
            i = i + 1;
        }
        let mut declared: Vec<Net> = crate::circuit::clone_nets(&ins);
        proof {
            assert(views(declared@) =~= views(ins@));
        }
        let mut acc = owned("module ").concat(self.get_name()).concat(" (\n");
        acc = acc.concat(input_list_text(&ins).as_str());
        acc = acc.concat(output_list_text(&outs).as_str());
        acc = acc.concat(");\n");
        acc = acc.concat(input_decls_text(&ins).as_str());
        acc = acc.concat(fresh_decls_text(&outs, &mut declared, true).as_str());
        acc = acc.concat(fresh_decls_text(&inst_nets_v, &mut declared, false).as_str());
        let ghost head = acc@;
        let mut i: usize = 0;
        while i < objs.len()
            invariant
                self.wf(),
                v == self@,
                objs@.len() == v.nodes.len(),
                forall|q: int| 0 <= q < objs@.len() ==> (#[trigger] objs@[q])@ == (q as nat, v.epoch),
                i <= objs@.len(),
                acc@ + instances_text(v, i as int) == head + instances_text(v, 0),
            decreases objs@.len() - i,
        {
            let t = instance_text_exec(self, objs[i]);
            let ghost before = acc@;
            acc = acc.concat(t.as_str());
            proof {
                assert(acc@ + instances_text(v, i + 1) =~= before + instances_text(v, i as int));
            }
            i = i + 1;
        }
        proof {
            assert(instances_text(v, i as int) == Seq::<char>::empty());
        }
        acc = acc.concat(assigns_text(self).as_str());
        acc = acc.concat("endmodule\n");
        proof {
            assert(acc@ =~= verilog(v));
        }
        acc
    }
}
} // verus!
