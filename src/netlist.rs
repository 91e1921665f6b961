//! The netlist store: an arena of circuit objects addressed by index, the
//! operands that wire them together, the exposed outputs, and the handles
//! through which callers read and rewrite the graph.

use vstd::prelude::*;
use vstd::string::*;
use crate::attribute::{Attribute, AttributeKey, AttributeValue, Parameter, value_view, clone_value};
use crate::circuit::{
    DataType, Identifier, IdentifierView, IdentifierType, Instantiable, Net, NetView, Object,
    clone_nets, emitted, identifier_of, object_nets,
};
use crate::text::{owned, decimal, usize_to_decimal, parse_decimal, canonical_decimal, is_digit, lemma_decimal_canonical};

verus! {

/// A primitive gate in a digital circuit, such as AND, OR, NOT, etc.
#[derive(Debug)]
pub struct Gate {
    /// The name of the primitive
    name: Identifier,
    /// Input ports, order matters
    inputs: Vec<Net>,
    /// Output ports, order matters
    outputs: Vec<Net>,
}

impl Clone for Gate {
    fn clone(&self) -> (r: Self)
        ensures
            r.spec_name() == self.spec_name(),
            r.spec_input_ports().len() == self.spec_input_ports().len(),
            r.spec_output_ports().len() == self.spec_output_ports().len(),
    {
        Gate {
            name: self.name.clone(),
            inputs: clone_nets(&self.inputs),
            outputs: clone_nets(&self.outputs),
        }
    }
}

impl Instantiable for Gate {
    closed spec fn spec_name(&self) -> IdentifierView {
        self.name@
    }

    closed spec fn spec_input_ports(&self) -> Seq<Net> {
        self.inputs@
    }

    closed spec fn spec_output_ports(&self) -> Seq<Net> {
        self.outputs@
    }

    closed spec fn spec_parameters(&self) -> Seq<(IdentifierView, Seq<char>)> {
        Seq::empty()
    }

    fn get_name(&self) -> (r: &Identifier) {
        &self.name
    }

    fn get_input_ports(&self) -> (r: &[Net]) {
        self.inputs.as_slice()
    }

    fn get_output_ports(&self) -> (r: &[Net]) {
        self.outputs.as_slice()
    }

    fn has_parameter(&self, id: &Identifier) -> (r: bool) {
        false
    }

    fn get_parameter(&self, id: &Identifier) -> (r: Option<Parameter>) {
        None
    }

    fn parameters(&self) -> (r: Vec<(Identifier, Parameter)>) {
        Vec::new()
    }
}

/// The four-state net that a port name stands for.
pub open spec fn logic_port(name: Seq<char>) -> NetView {
    (identifier_of(name), DataType::FourState)
}

fn logic_nets(names: Vec<String>) -> (r: Vec<Net>)
    ensures
        r@.len() == names@.len(),
        forall|i: int| 0 <= i < r@.len() ==> (#[trigger] r@[i])@ == logic_port(names@[i]@),
{
    let mut r: Vec<Net> = Vec::new();
    let mut i: usize = 0;
    while i < names.len()
        invariant
            i <= names@.len(),
            r@.len() == i,
            forall|j: int| 0 <= j < i ==> (#[trigger] r@[j])@ == logic_port(names@[j]@),
        decreases names@.len() - i,
    {
        r.push(Net::new_logic(names[i].clone()));
        i = i + 1;
    }
    r
}

impl Gate {
    /// Creates a new gate primitive with four-state logic ports and one output
    pub fn new_logical(name: Identifier, inputs: Vec<String>, output: String) -> (r: Self)
        ensures
            r.spec_name() == name@,
            r.spec_input_ports().len() == inputs@.len(),
            forall|i: int|
                0 <= i < inputs@.len() ==> (#[trigger] r.spec_input_ports()[i])@ == logic_port(
                    inputs@[i]@,
                ),
            r.spec_output_ports().len() == 1,
            r.spec_output_ports()[0]@ == logic_port(output@),
            r.spec_parameters().len() == 0,
    {
        let outputs = vec![Net::new_logic(output)];
        Gate { name, inputs: logic_nets(inputs), outputs }
    }

    /// Creates a new gate primitive with four-state logic ports and several outputs
    pub fn new_logical_multi(name: Identifier, inputs: Vec<String>, outputs: Vec<String>) -> (r:
        Self)
        ensures
            r.spec_name() == name@,
            r.spec_input_ports().len() == inputs@.len(),
            forall|i: int|
                0 <= i < inputs@.len() ==> (#[trigger] r.spec_input_ports()[i])@ == logic_port(
                    inputs@[i]@,
                ),
            r.spec_output_ports().len() == outputs@.len(),
            forall|i: int|
                0 <= i < outputs@.len() ==> (#[trigger] r.spec_output_ports()[i])@ == logic_port(
                    outputs@[i]@,
                ),
            r.spec_parameters().len() == 0,
    {
        Gate { name, inputs: logic_nets(inputs), outputs: logic_nets(outputs) }
    }

    /// Returns the single output port of this primitive, which must have exactly one
    pub fn get_single_output_port(&self) -> (r: &Net)
        requires
            self.spec_output_ports().len() == 1,
        ensures
            *r == self.spec_output_ports()[0],
    {
        &self.outputs[0]
    }

    /// Set the type of cell by name
    pub fn set_gate_name(&mut self, new_name: Identifier)
        ensures
            final(self).spec_name() == new_name@,
            final(self).spec_input_ports() == old(self).spec_input_ports(),
            final(self).spec_output_ports() == old(self).spec_output_ports(),
            final(self).spec_parameters() == old(self).spec_parameters(),
    {
        self.name = new_name;
    }

    /// Returns the name of this primitive
    pub fn get_gate_name(&self) -> (r: &Identifier)
        ensures
            r@ == self.spec_name(),
    {
        &self.name
    }
}

/// An address of one output of a circuit node.
#[derive(Debug, Clone, Copy, PartialEq, Eq, Structural, Hash)]
pub enum Operand {
    /// The sole output of the object at this index
    DirectIndex(usize),
    /// Output `.1` of the (multi-output) object at index `.0`
    CellIndex(usize, usize),
}

/// The object index that an operand addresses.
pub open spec fn op_root(op: Operand) -> nat {
    match op {
        Operand::DirectIndex(idx) => idx as nat,
        Operand::CellIndex(idx, _) => idx as nat,
    }
}

/// The output position that an operand addresses.
pub open spec fn op_secondary(op: Operand) -> nat {
    match op {
        Operand::DirectIndex(_) => 0,
        Operand::CellIndex(_, j) => j as nat,
    }
}

/// The same operand, moved to object index `x`.
pub open spec fn op_remap(op: Operand, x: usize) -> Operand {
    match op {
        Operand::DirectIndex(_) => Operand::DirectIndex(x),
        Operand::CellIndex(_, j) => Operand::CellIndex(x, j),
    }
}

/// The operand that addresses output `pos` of the object at `index`, which
/// drives `n_nets` nets: single-output objects are addressed directly.
pub open spec fn operand_for(index: nat, pos: nat, n_nets: nat) -> Operand {
    if n_nets > 1 {
        Operand::CellIndex(index as usize, pos as usize)
    } else {
        Operand::DirectIndex(index as usize)
    }
}

impl Operand {
    /// Remap the node index of the operand to `x`.
    pub fn remap(self, x: usize) -> (r: Self)
        ensures
            r == op_remap(self, x),
    {
        match self {
            Operand::DirectIndex(_idx) => Operand::DirectIndex(x),
            Operand::CellIndex(_idx, j) => Operand::CellIndex(x, j),
        }
    }

    /// Returns the circuit node index
    pub fn root(&self) -> (r: usize)
        ensures
            r == op_root(*self),
    {
        match self {
            Operand::DirectIndex(idx) => *idx,
            Operand::CellIndex(idx, _) => *idx,
        }
    }

    /// Returns the secondary index (the position among the node's outputs)
    pub fn secondary(&self) -> (r: usize)
        ensures
            r == op_secondary(*self),
    {
        match self {
            Operand::DirectIndex(_) => 0,
            Operand::CellIndex(_, j) => *j,
        }
    }
}

/// The abstract value of a node of the store.
pub struct NodeView<I> {
    /// The circuit object
    pub object: Object<I>,
    /// One slot per input port; `None` is unconnected
    pub operands: Seq<Option<Operand>>,
    /// The attributes, keys unique, in insertion order
    pub attributes: Seq<(Seq<char>, Option<Seq<char>>)>,
}

/// The abstract value of a netlist.
pub struct NetlistView<I> {
    /// The name of the module
    pub name: Seq<char>,
    /// The nodes, in store order
    pub nodes: Seq<NodeView<I>>,
    /// The exposed outputs: the operand that drives each, with the net it is bound to
    pub outputs: Seq<(Operand, NetView)>,
    /// The layout epoch; it changes whenever compaction renumbers nodes
    pub epoch: u64,
}

/// The nets driven by node `i`.
pub open spec fn nets_at<I>(v: NetlistView<I>, i: int) -> Seq<Net> {
    object_nets(v.nodes[i].object)
}

/// Node `i` is a principal input.
pub open spec fn is_input_at<I>(v: NetlistView<I>, i: int) -> bool {
    v.nodes[i].object is Input
}

/// `op` addresses an existing output, in the canonical form for its node.
pub open spec fn valid_operand<I>(v: NetlistView<I>, op: Operand) -> bool {
    &&& op_root(op) < v.nodes.len()
    &&& op_secondary(op) < nets_at(v, op_root(op) as int).len()
    &&& op == operand_for(op_root(op), op_secondary(op), nets_at(v, op_root(op) as int).len())
}

/// The shape of a node agrees with its object.
pub open spec fn node_wf<I: Instantiable>(n: NodeView<I>) -> bool {
    &&& match n.object {
        Object::Input(_) => n.operands.len() == 0,
        Object::Instance(nets, _, inst) => {
            &&& nets@.len() == inst.spec_output_ports().len()
            &&& n.operands.len() == inst.spec_input_ports().len()
        },
    }
    &&& forall|a: int, b: int|
        0 <= a < b < n.attributes.len() ==> (#[trigger] n.attributes[a]).0
            != (#[trigger] n.attributes[b]).0
}

/// The keys of the outputs are distinct.
pub open spec fn output_keys_unique(outs: Seq<(Operand, NetView)>) -> bool {
    forall|a: int, b: int| 0 <= a < b < outs.len() ==> (#[trigger] outs[a]).0 != (#[trigger] outs[b]).0
}

/// Every operand in the store addresses an existing output.
pub open spec fn operands_valid<I>(v: NetlistView<I>) -> bool {
    forall|i: int, j: int|
        0 <= i < v.nodes.len() && 0 <= j < v.nodes[i].operands.len()
            && #[trigger] v.nodes[i].operands[j] is Some ==> valid_operand(
            v,
            v.nodes[i].operands[j].unwrap(),
        )
}

/// Every exposed output is driven by an existing output.
pub open spec fn outputs_valid<I>(v: NetlistView<I>) -> bool {
    forall|k: int| 0 <= k < v.outputs.len() ==> valid_operand(v, (#[trigger] v.outputs[k]).0)
}

/// The structural invariant of a netlist, which every operation keeps.
pub open spec fn view_wf<I: Instantiable>(v: NetlistView<I>) -> bool {
    &&& forall|i: int| 0 <= i < v.nodes.len() ==> node_wf(#[trigger] v.nodes[i])
    &&& operands_valid(v)
    &&& outputs_valid(v)
    &&& output_keys_unique(v.outputs)
}

/// An object of the store, with its wiring, attributes and index.
#[derive(Debug)]
struct OwnedObject<I> {
    /// The circuit object
    object: Object<I>,
    /// The list of operands for the object
    operands: Vec<Option<Operand>>,
    /// The attributes of the object, keys unique
    attributes: Vec<Attribute>,
    /// The index of the object within the netlist
    index: usize,
}

impl<I> View for OwnedObject<I> {
    type V = NodeView<I>;

    closed spec fn view(&self) -> NodeView<I> {
        NodeView {
            object: self.object,
            operands: self.operands@,
            attributes: self.attributes@.map_values(|a: Attribute| a@),
        }
    }
}

/// A netlist: the store of circuit objects and the exposed outputs.
#[derive(Debug)]
pub struct Netlist<I> {
    /// The name of the netlist
    name: String,
    /// The objects, such as inputs and primitive instances
    objects: Vec<OwnedObject<I>>,
    /// The operands that drive outputs, with the nets they are bound to
    outputs: Vec<(Operand, Net)>,
    /// The layout epoch of the store
    epoch: u64,
}

impl<I> View for Netlist<I> {
    type V = NetlistView<I>;

    closed spec fn view(&self) -> NetlistView<I> {
        NetlistView {
            name: self.name@,
            nodes: self.objects@.map_values(|o: OwnedObject<I>| o@),
            outputs: self.outputs@.map_values(|p: (Operand, Net)| (p.0, p.1@)),
            epoch: self.epoch,
        }
    }
}

/// A whole-node handle: an index into the store, valid in one layout epoch.
#[derive(Debug, Clone, Copy, PartialEq, Eq, Structural, Hash)]
pub struct NetRef {
    index: usize,
    epoch: u64,
}

impl View for NetRef {
    type V = (nat, u64);

    closed spec fn view(&self) -> (nat, u64) {
        (self.index as nat, self.epoch)
    }
}

/// A handle to one output of a node.
#[derive(Debug, Clone, Copy, PartialEq, Eq, Structural, Hash)]
pub struct DrivenNet {
    pos: usize,
    netref: NetRef,
}

impl View for DrivenNet {
    type V = (nat, nat, u64);

    closed spec fn view(&self) -> (nat, nat, u64) {
        (self.netref.index as nat, self.pos as nat, self.netref.epoch)
    }
}

/// A handle to one input slot of an instance.
#[derive(Debug, Clone, Copy, PartialEq, Eq, Structural, Hash)]
pub struct InputPort {
    pos: usize,
    netref: NetRef,
}

impl View for InputPort {
    type V = (nat, nat, u64);

    closed spec fn view(&self) -> (nat, nat, u64) {
        (self.netref.index as nat, self.pos as nat, self.netref.epoch)
    }
}

/// `nr` addresses a node of `v` in its current epoch.
pub open spec fn valid_ref<I>(v: NetlistView<I>, nr: (nat, u64)) -> bool {
    nr.1 == v.epoch && nr.0 < v.nodes.len()
}

/// `d` addresses an output of a node of `v` in its current epoch.
pub open spec fn valid_driven<I>(v: NetlistView<I>, d: (nat, nat, u64)) -> bool {
    d.2 == v.epoch && d.0 < v.nodes.len() && d.1 < nets_at(v, d.0 as int).len()
}

/// `p` addresses an input slot of a node of `v` in its current epoch.
pub open spec fn valid_input<I>(v: NetlistView<I>, p: (nat, nat, u64)) -> bool {
    p.2 == v.epoch && p.0 < v.nodes.len() && p.1 < v.nodes[p.0 as int].operands.len()
}

/// The operand that addresses the output a handle stands for.
pub open spec fn driven_operand<I>(v: NetlistView<I>, d: (nat, nat, u64)) -> Operand {
    operand_for(d.0, d.1, nets_at(v, d.0 as int).len())
}

/// The name of output `port` of instance `inst_name`: `<inst_name>_<port>`.
pub open spec fn qualified_name(inst_name: IdentifierView, port: IdentifierView) -> IdentifierView {
    identifier_of(emitted(inst_name) + seq!['_'] + emitted(port))
}

/// The output nets of an instance named `inst_name` of `inst`.
pub open spec fn instance_nets_ok<I: Instantiable>(nets: Seq<Net>, inst_name: IdentifierView, inst: I) -> bool {
    &&& nets.len() == inst.spec_output_ports().len()
    &&& forall|k: int|
        0 <= k < nets.len() ==> (#[trigger] nets[k])@ == (
            qualified_name(inst_name, inst.spec_output_ports()[k]@.0),
            inst.spec_output_ports()[k]@.1,
        )
}

/// Errors that netlist construction and analysis report.
#[derive(Debug, Clone, Copy, PartialEq, Eq, Structural)]
pub enum NetlistError {
    /// A gate was given a number of operands other than its number of inputs
    OperandCount { expected: usize, got: usize },
    /// A principal input cannot be exposed as an output without a new name
    InputAsOutput,
    /// The net is not driven by the circuit node
    NetNotFound,
    /// The netlist has no outputs
    NoOutputs,
    /// Two nets share an identifier
    NonUniqueNets,
    /// Two instances share a name
    NonUniqueInstances,
    /// The graph has a combinational cycle
    CycleDetected,
    /// Persisted parts do not describe a well-shaped netlist
    Malformed,
}

impl NetlistError {
    /// A human-readable description of the error.
    pub fn message(&self) -> (r: String) {
        match self {
            NetlistError::OperandCount { .. } => owned("Operand count does not match the inputs of this primitive"),
            NetlistError::InputAsOutput => owned("Cannot expose an input net as output without a new name to bind to"),
            NetlistError::NetNotFound => owned("Net not found in circuit node"),
            NetlistError::NoOutputs => owned("Netlist has no outputs"),
            NetlistError::NonUniqueNets => owned("Netlist contains non-unique nets"),
            NetlistError::NonUniqueInstances => owned("Netlist contains non-unique instances"),
            NetlistError::CycleDetected => owned("Cycle detected in the netlist"),
            NetlistError::Malformed => owned("The persisted netlist is malformed"),
        }
    }
}

impl<I: Instantiable> Netlist<I> {
    /// The invariant of the store: the abstract invariant, and each object
    /// knows its own index.
    pub closed spec fn wf(&self) -> bool {
        &&& view_wf(self@)
        &&& forall|i: int| 0 <= i < self.objects@.len() ==> (#[trigger] self.objects@[i]).index == i
    }

    /// Creates a new, empty netlist with the given name
    pub fn new(name: String) -> (r: Self)
        ensures
            r.wf(),
            r@.name == name@,
            r@.nodes.len() == 0,
            r@.outputs.len() == 0,
            r@.epoch == 0,
    {
        let r = Netlist { name, objects: Vec::new(), outputs: Vec::new(), epoch: 0 };
        proof {
            assert(r@.nodes =~= Seq::<NodeView<I>>::empty());
            assert(r@.outputs =~= Seq::<(Operand, NetView)>::empty());
        }
        r
    }

    /// Returns the netlist itself: a netlist is owned by one caller, so this
    /// always succeeds.
    pub fn reclaim(self) -> (r: Option<Self>)
        ensures
            r == Some(self),
    {
        Some(self)
    }

    /// Returns the name of the netlist module
    pub fn get_name(&self) -> (r: &str)
        ensures
            r@ == self@.name,
    {
        self.name.as_str()
    }

    /// Appends an object with the given operands; returns its index.
    fn push_object(&mut self, object: Object<I>, operands: Vec<Option<Operand>>) -> (r: usize)
        requires
            old(self).wf(),
            old(self)@.nodes.len() < usize::MAX,
            node_wf(NodeView { object, operands: operands@, attributes: Seq::empty() }),
            forall|j: int|
                0 <= j < operands@.len() && (#[trigger] operands@[j]) is Some ==> valid_operand(
                    old(self)@,
                    operands@[j].unwrap(),
                ),
        ensures
            final(self).wf(),
            r == old(self)@.nodes.len(),
            final(self)@ == (NetlistView {
                nodes: old(self)@.nodes.push(
                    NodeView { object, operands: operands@, attributes: Seq::empty() },
                ),
                ..old(self)@
            }),
    {
        let index = self.objects.len();
        let ghost old_v = self@;
        let ghost node = NodeView { object, operands: operands@, attributes: Seq::empty() };
        let owned = OwnedObject { object, operands, attributes: Vec::new(), index };
        proof {
            assert(owned@.attributes =~= Seq::<(Seq<char>, Option<Seq<char>>)>::empty());
        }
        self.objects.push(owned);
        proof {
            let v = self@;
            assert(v.nodes =~= old_v.nodes.push(node));
            assert(v.outputs =~= old_v.outputs);
            assert forall|i: int, j: int|
                0 <= i < v.nodes.len() && 0 <= j < v.nodes[i].operands.len()
                    && #[trigger] v.nodes[i].operands[j] is Some implies valid_operand(
                v,
                v.nodes[i].operands[j].unwrap(),
            ) by {
                let op = v.nodes[i].operands[j].unwrap();
                if i < old_v.nodes.len() {
                    assert(old_v.nodes[i].operands[j] is Some);
                    assert(nets_at(v, op_root(op) as int) == nets_at(old_v, op_root(op) as int));
                } else {
                    assert(operands@[j] is Some);
                    assert(nets_at(v, op_root(op) as int) == nets_at(old_v, op_root(op) as int));
                }
            }
            assert forall|k: int| 0 <= k < v.outputs.len() implies valid_operand(
                v,
                (#[trigger] v.outputs[k]).0,
            ) by {
                let op = v.outputs[k].0;
                assert(old_v.outputs[k] == v.outputs[k]);
                assert(nets_at(v, op_root(op) as int) == nets_at(old_v, op_root(op) as int));
            }
            assert forall|i: int| 0 <= i < v.nodes.len() implies node_wf(#[trigger] v.nodes[i]) by {
                if i < old_v.nodes.len() {
                    assert(v.nodes[i] == old_v.nodes[i]);
                }
            }
            assert(v == NetlistView { nodes: old_v.nodes.push(node), ..old_v });
        }
        index
    }
}


/// Node `n` is an instance named `inst_name` of `inst_type`, with the output
/// nets that insertion gives it.
pub open spec fn instance_node_ok<I: Instantiable>(n: NodeView<I>, inst_name: Identifier, inst_type: I) -> bool {
    match n.object {
        Object::Instance(nets, name, inst) => {
            &&& name == inst_name
            &&& inst == inst_type
            &&& instance_nets_ok(nets@, inst_name@, inst_type)
        },
        _ => false,
    }
}

/// `new` is `old` with one node appended that satisfies `node`, all else unchanged.
pub open spec fn appended<I>(old: NetlistView<I>, new: NetlistView<I>) -> bool {
    &&& new.nodes.len() == old.nodes.len() + 1
    &&& new.nodes.subrange(0, old.nodes.len() as int) == old.nodes
    &&& new.outputs == old.outputs
    &&& new.name == old.name
    &&& new.epoch == old.epoch
}

/// `n` is the principal input for bit `i` of the escaped bus `name`.
pub open spec fn bus_input_node<I>(n: NodeView<I>, name: Seq<char>, i: nat) -> bool {
    &&& n.object matches Object::Input(net) && net@ == (
        (crate::circuit::bus_bit_name(name, i), IdentifierType::Escaped),
        DataType::FourState,
    )
    &&& n.operands.len() == 0
}

impl<I: Instantiable> Netlist<I> {
    /// The number of nets that node `i` drives.
    fn n_nets(&self, i: usize) -> (r: usize)
        requires
            i < self@.nodes.len(),
        ensures
            r == nets_at(self@, i as int).len(),
    {
        proof {
            assert(self@.nodes[i as int] == self.objects@[i as int]@);
        }
        match &self.objects[i].object {
            Object::Input(_) => 1,
            Object::Instance(nets, _, _) => nets.len(),
        }
    }

    /// The net that node `i` drives at position `pos`.
    fn net_at(&self, i: usize, pos: usize) -> (r: &Net)
        requires
            i < self@.nodes.len(),
            pos < nets_at(self@, i as int).len(),
        ensures
            *r == nets_at(self@, i as int)[pos as int],
    {
        proof {
            assert(self@.nodes[i as int] == self.objects@[i as int]@);
        }
        self.objects[i].object.get_net(pos)
    }

    /// The operand that addresses the output that `d` stands for.
    fn operand_of(&self, d: &DrivenNet) -> (r: Operand)
        requires
            valid_driven(self@, d@),
        ensures
            r == driven_operand(self@, d@),
            valid_operand(self@, r),
    {
        let n = self.n_nets(d.netref.index);
        if n > 1 {
            Operand::CellIndex(d.netref.index, d.pos)
        } else {
            Operand::DirectIndex(d.netref.index)
        }
    }

    /// A handle to node `i` in the current epoch.
    fn netref_at(&self, i: usize) -> (r: NetRef)
        ensures
            r@ == (i as nat, self@.epoch),
    {
        NetRef { index: i, epoch: self.epoch }
    }

    /// A handle to the output that `op` addresses.
    fn driven_at(&self, op: Operand) -> (r: DrivenNet)
        ensures
            r@ == (op_root(op), op_secondary(op), self@.epoch),
    {
        DrivenNet { pos: op.secondary(), netref: NetRef { index: op.root(), epoch: self.epoch } }
    }

    /// Inserts a principal input driving `net`; returns a handle to its output.
    pub fn insert_input(&mut self, net: Net) -> (r: DrivenNet)
        requires
            old(self).wf(),
            old(self)@.nodes.len() < usize::MAX,
        ensures
            final(self).wf(),
            appended(old(self)@, final(self)@),
            final(self)@.nodes.last() == (NodeView::<I> {
                object: Object::Input(net),
                operands: Seq::empty(),
                attributes: Seq::empty(),
            }),
            r@ == (old(self)@.nodes.len(), 0nat, old(self)@.epoch),
    {
        let ops: Vec<Option<Operand>> = Vec::new();
        proof {
            assert(ops@ =~= Seq::<Option<Operand>>::empty());
        }
        let index = self.push_object(Object::Input(net), ops);
        proof {
            assert(final(self)@.nodes.subrange(0, old(self)@.nodes.len() as int) =~= old(self)@.nodes);
        }
        DrivenNet { pos: 0, netref: NetRef { index, epoch: self.epoch } }
    }

    /// Inserts one four-state principal input per bit of an escaped bus named
    /// `net`, in bit order; returns handles to them.
    #[verifier::spinoff_prover]
    pub fn insert_input_escaped_logic_bus(&mut self, net: String, bw: usize) -> (r: Vec<DrivenNet>)
        requires
            old(self).wf(),
            old(self)@.nodes.len() + bw < usize::MAX,
        ensures
            final(self).wf(),
            final(self)@.nodes.len() == old(self)@.nodes.len() + bw,
            final(self)@.nodes.subrange(0, old(self)@.nodes.len() as int) == old(self)@.nodes,
            final(self)@.outputs == old(self)@.outputs,
            final(self)@.name == old(self)@.name,
            final(self)@.epoch == old(self)@.epoch,
            r@.len() == bw,
            forall|i: int|
                0 <= i < bw ==> {
                    &&& (#[trigger] r@[i])@ == ((old(self)@.nodes.len() + i) as nat, 0nat, old(self)@.epoch)
                    &&& bus_input_node(final(self)@.nodes[old(self)@.nodes.len() + i], net@, i as nat)
                },
    {
        let nets = Net::new_escaped_logic_bus(net, bw);
        let mut r: Vec<DrivenNet> = Vec::new();
        let ghost base = self@;
        let mut nets = nets;
        let mut i: usize = 0;
        while i < bw
            invariant
                self.wf(),
                base == old(self)@,
                i <= bw,
                nets@.len() == bw,
                base.nodes.len() + bw < usize::MAX,
                self@.nodes.len() == base.nodes.len() + i,
                self@.nodes.subrange(0, base.nodes.len() as int) == base.nodes,
                self@.outputs == base.outputs,
                self@.name == base.name,
                self@.epoch == base.epoch,
                r@.len() == i,
                forall|j: int|
                    i <= j < bw ==> (#[trigger] nets@[j])@ == (
                        (crate::circuit::bus_bit_name(net@, j as nat), IdentifierType::Escaped),
                        DataType::FourState,
                    ),
                forall|j: int|
                    0 <= j < i ==> {
                        &&& (#[trigger] r@[j])@ == ((base.nodes.len() + j) as nat, 0nat, base.epoch)
                        &&& bus_input_node(self@.nodes[base.nodes.len() + j], net@, j as nat)
                    },
            decreases bw - i,
        {
            let n = nets[i].clone();
            let ghost before = self@;
            let d = self.insert_input(n);
            proof {
                assert forall|j: int| 0 <= j < base.nodes.len() implies #[trigger] self@.nodes[j]
                    == base.nodes[j] by {
                    assert(self@.nodes[j] == before.nodes.subrange(0, before.nodes.len() as int)[j]);
                    assert(before.nodes[j] == before.nodes.subrange(0, base.nodes.len() as int)[j]);
                }
                assert(self@.nodes.subrange(0, base.nodes.len() as int) =~= base.nodes);
                assert forall|j: int| 0 <= j < i implies #[trigger] self@.nodes[base.nodes.len() + j]
                    == before.nodes[base.nodes.len() + j] by {
                    assert(self@.nodes[base.nodes.len() + j] == self@.nodes.subrange(0, before.nodes.len() as int)[base.nodes.len() + j]);
                }
            }
            let ghost r_before = r@;
            r.push(d);
            proof {
                assert(self@.nodes[base.nodes.len() + i] == self@.nodes.last());
                assert(r@[i as int]@ == ((base.nodes.len() + i) as nat, 0nat, base.epoch));
                assert(self@.nodes.last().object == Object::<I>::Input(n));
                assert(n@ == nets@[i as int]@);
                assert(bus_input_node(self@.nodes[base.nodes.len() + i], net@, i as nat));
                assert forall|j: int| 0 <= j < i implies #[trigger] self@.nodes[base.nodes.len() + j] == before.nodes[base.nodes.len() + j] by {}
                assert forall|j: int| 0 <= j < i implies #[trigger] r@[j] == r_before[j] by {}
                assert forall|j: int| 0 <= j < i + 1 implies {
                    &&& (#[trigger] r@[j])@ == ((base.nodes.len() + j) as nat, 0nat, base.epoch)
                    &&& bus_input_node(self@.nodes[base.nodes.len() + j], net@, j as nat)
                } by {
                    if j < i {
                        assert(r@[j] == r_before[j]);
                        assert(r_before[j]@ == ((base.nodes.len() + j) as nat, 0nat, base.epoch));
                        assert(bus_input_node(before.nodes[base.nodes.len() + j], net@, j as nat));
                    }
                }
            }
            i = i + 1;
        }
        proof {
            assert forall|j: int| 0 <= j < bw implies {
                &&& (#[trigger] r@[j])@ == ((old(self)@.nodes.len() + j) as nat, 0nat, old(self)@.epoch)
                &&& bus_input_node(self@.nodes[old(self)@.nodes.len() + j], net@, j as nat)
            } by {
                assert(r@[j]@ == ((base.nodes.len() + j) as nat, 0nat, base.epoch));
            }
        }
        r
    }

    /// Builds the output nets of an instance named `inst_name` of `inst_type`.
    fn instance_nets(inst_type: &I, inst_name: &Identifier) -> (r: Vec<Net>)
        ensures
            instance_nets_ok(r@, inst_name@, *inst_type),
    {
        let ports = inst_type.get_output_ports();
        let prefix = inst_name.emit_name().concat("_");
        proof {
            reveal_strlit("_");
        }
        let mut nets: Vec<Net> = Vec::new();
        let mut k: usize = 0;
        while k < ports.len()
            invariant
                k <= ports@.len(),
                ports@ == inst_type.spec_output_ports(),
                prefix@ == emitted(inst_name@) + seq!['_'],
                nets@.len() == k,
                forall|j: int|
                    0 <= j < k ==> (#[trigger] nets@[j])@ == (
                        qualified_name(inst_name@, ports@[j]@.0),
                        ports@[j]@.1,
                    ),
            decreases ports@.len() - k,
        {
            let port = &ports[k];
            let text = prefix.clone().concat(port.get_identifier().emit_name().as_str());
            nets.push(port.with_identifier(Identifier::new(text)));
            k = k + 1;
        }
        nets
    }

    /// Inserts an instance of `inst_type` named `inst_name`, wired to the
    /// given drivers in input-port order. Fails, changing nothing, when the
    /// number of operands differs from the number of input ports.
    #[verifier::spinoff_prover]
    pub fn insert_gate(&mut self, inst_type: I, inst_name: Identifier, operands: &[DrivenNet]) -> (r: Result<NetRef, NetlistError>)
        requires
            old(self).wf(),
            !(inst_name@.1 is Escaped),
            old(self)@.nodes.len() < usize::MAX,
            forall|i: int| 0 <= i < operands@.len() ==> valid_driven(old(self)@, #[trigger] operands@[i]@),
        ensures
            final(self).wf(),
            operands@.len() != inst_type.spec_input_ports().len() ==> {
                &&& r == Err::<NetRef, NetlistError>(NetlistError::OperandCount {
                    expected: inst_type.spec_input_ports().len() as usize,
                    got: operands@.len() as usize,
                })
                &&& final(self)@ == old(self)@
            },
            operands@.len() == inst_type.spec_input_ports().len() ==> {
                &&& r is Ok && r.unwrap()@ == (old(self)@.nodes.len(), old(self)@.epoch)
                &&& appended(old(self)@, final(self)@)
                &&& instance_node_ok(final(self)@.nodes.last(), inst_name, inst_type)
                &&& final(self)@.nodes.last().operands.len() == operands@.len()
                &&& forall|i: int| 0 <= i < operands@.len() ==> #[trigger] final(self)@.nodes.last().operands[i]
                    == Some(driven_operand(old(self)@, operands@[i]@))
                &&& final(self)@.nodes.last().attributes.len() == 0
            },
    {
        let nets = Self::instance_nets(&inst_type, &inst_name);
        let input_count = inst_type.get_input_ports().len();
        if operands.len() != input_count {
            return Err(NetlistError::OperandCount { expected: input_count, got: operands.len() });
        }
        let mut ops: Vec<Option<Operand>> = Vec::new();
        let mut i: usize = 0;
        while i < operands.len()
            invariant
                i <= operands@.len(),
                ops@.len() == i,
                forall|k: int| 0 <= k < operands@.len() ==> valid_driven(self@, #[trigger] operands@[k]@),
                forall|k: int| 0 <= k < i ==> #[trigger] ops@[k] == Some(driven_operand(self@, operands@[k]@)),
                forall|k: int| 0 <= k < i ==> valid_operand(self@, driven_operand(self@, #[trigger] operands@[k]@)),
            decreases operands@.len() - i,
        {
            let op = self.operand_of(&operands[i]);
            ops.push(Some(op));
            i = i + 1;
        }
        let ghost ops_v = ops@;
        let index = self.push_object(Object::Instance(nets, inst_name, inst_type), ops);
        proof {
            assert(final(self)@.nodes.subrange(0, old(self)@.nodes.len() as int) =~= old(self)@.nodes);
        }
        Ok(NetRef { index, epoch: self.epoch })
    }

    /// Inserts an instance of `inst_type` named `inst_name` with every input
    /// slot unconnected; the slots are wired later through [InputPort::connect].
    pub fn insert_gate_disconnected(&mut self, inst_type: I, inst_name: Identifier) -> (r: Result<NetRef, NetlistError>)
        requires
            old(self).wf(),
            !(inst_name@.1 is Escaped),
            old(self)@.nodes.len() < usize::MAX,
        ensures
            final(self).wf(),
            r is Ok && r.unwrap()@ == (old(self)@.nodes.len(), old(self)@.epoch),
            appended(old(self)@, final(self)@),
            instance_node_ok(final(self)@.nodes.last(), inst_name, inst_type),
            final(self)@.nodes.last().operands.len() == inst_type.spec_input_ports().len(),
            forall|i: int| 0 <= i < inst_type.spec_input_ports().len() ==> #[trigger] final(self)@.nodes.last().operands[i] is None,
            final(self)@.nodes.last().attributes.len() == 0,
    {
        let nets = Self::instance_nets(&inst_type, &inst_name);
        let input_count = inst_type.get_input_ports().len();
        let mut ops: Vec<Option<Operand>> = Vec::new();
        let mut i: usize = 0;
        while i < input_count
            invariant
                i <= input_count,
                ops@.len() == i,
                forall|k: int| 0 <= k < i ==> #[trigger] ops@[k] is None,
            decreases input_count - i,
        {
            ops.push(None);
            i = i + 1;
        }
        let index = self.push_object(Object::Instance(nets, inst_name, inst_type), ops);
        proof {
            assert(final(self)@.nodes.subrange(0, old(self)@.nodes.len() as int) =~= old(self)@.nodes);
        }
        Ok(NetRef { index, epoch: self.epoch })
    }
}

/// `outs` has an entry keyed by `op`.
pub open spec fn has_key(outs: Seq<(Operand, NetView)>, op: Operand) -> bool {
    exists|k: int| 0 <= k < outs.len() && (#[trigger] outs[k]).0 == op
}

/// `outs` with `op` bound to `n`: an existing entry for `op` is replaced in
/// place, otherwise the entry is appended.
pub open spec fn outputs_insert(outs: Seq<(Operand, NetView)>, op: Operand, n: NetView) -> Seq<(Operand, NetView)> {
    if has_key(outs, op) {
        let k = choose|k: int| 0 <= k < outs.len() && (#[trigger] outs[k]).0 == op;
        outs.update(k, (op, n))
    } else {
        outs.push((op, n))
    }
}

/// Only node `i` differs between `old` and `new`, and its wiring and attributes are kept.
pub open spec fn only_object_changed<I>(old: NetlistView<I>, new: NetlistView<I>, i: int) -> bool {
    &&& new.nodes.len() == old.nodes.len()
    &&& forall|k: int| 0 <= k < old.nodes.len() && k != i ==> #[trigger] new.nodes[k] == old.nodes[k]
    &&& new.nodes[i].operands == old.nodes[i].operands
    &&& new.nodes[i].attributes == old.nodes[i].attributes
    &&& new.outputs == old.outputs
    &&& new.name == old.name
    &&& new.epoch == old.epoch
}

/// `n` is `o` with the identifier of net `pos` replaced by `id`.
pub open spec fn net_renamed<I>(o: Object<I>, n: Object<I>, pos: int, id: IdentifierView) -> bool {
    &&& object_nets(n).len() == object_nets(o).len()
    &&& object_nets(n)[pos]@ == (id, object_nets(o)[pos]@.1)
    &&& forall|k: int| 0 <= k < object_nets(o).len() && k != pos ==> #[trigger] object_nets(n)[k] == object_nets(o)[k]
    &&& match (o, n) {
        (Object::Input(_), Object::Input(_)) => true,
        (Object::Instance(_, a, x), Object::Instance(_, b, y)) => a == b && x == y,
        _ => false,
    }
}

/// Validity of an operand depends only on the shape of the store.
pub proof fn lemma_same_shape<I>(a: NetlistView<I>, b: NetlistView<I>)
    requires
        a.nodes.len() == b.nodes.len(),
        forall|i: int| 0 <= i < a.nodes.len() ==> (#[trigger] nets_at(a, i)).len() == nets_at(b, i).len(),
    ensures
        forall|op: Operand| valid_operand(a, op) == #[trigger] valid_operand(b, op),
{
}

impl<I> OwnedObject<I> {
    fn set_net_identifier(&mut self, pos: usize, id: Identifier)
        requires
            pos < object_nets(old(self).object).len(),
        ensures
            net_renamed(old(self).object, final(self).object, pos as int, id@),
            final(self).operands == old(self).operands,
            final(self).attributes == old(self).attributes,
            final(self).index == old(self).index,
    {
        match &mut self.object {
            Object::Input(net) => net.set_identifier(id),
            Object::Instance(nets, _, _) => nets[pos].set_identifier(id),
        }
    }
}

impl<I: Instantiable> Netlist<I> {
    /// Renames net `pos` of node `i`.
    #[verifier::spinoff_prover]
    fn rename_net(&mut self, i: usize, pos: usize, id: Identifier)
        requires
            old(self).wf(),
            i < old(self)@.nodes.len(),
            pos < nets_at(old(self)@, i as int).len(),
        ensures
            final(self).wf(),
            only_object_changed(old(self)@, final(self)@, i as int),
            net_renamed(old(self)@.nodes[i as int].object, final(self)@.nodes[i as int].object, pos as int, id@),
    {
        let ghost old_v = self@;
        proof {
            assert(self@.nodes[i as int] == self.objects@[i as int]@);
        }
        self.objects[i].set_net_identifier(pos, id);
        proof {
            let v = self@;
            assert(v.nodes.len() == old_v.nodes.len());
            assert forall|k: int| 0 <= k < old_v.nodes.len() && k != i implies #[trigger] v.nodes[k] == old_v.nodes[k] by {
                assert(self.objects@[k] == old(self).objects@[k]);
            }
            assert(v.nodes[i as int] == self.objects@[i as int]@);
            assert(v.outputs =~= old_v.outputs);
            assert forall|k: int| 0 <= k < old_v.nodes.len() implies (#[trigger] nets_at(old_v, k)).len() == nets_at(v, k).len() by {
                if k != i {
                    assert(v.nodes[k] == old_v.nodes[k]);
                }
            }
            lemma_same_shape(old_v, v);
            assert forall|k: int| 0 <= k < v.nodes.len() implies node_wf(#[trigger] v.nodes[k]) by {
                if k != i {
                    assert(v.nodes[k] == old_v.nodes[k]);
                } else {
                    assert(node_wf(old_v.nodes[k]));
                    assert(v.nodes[k].attributes == old_v.nodes[k].attributes);
                    match (old_v.nodes[k].object, v.nodes[k].object) {
                        (Object::Instance(on, _, x), Object::Instance(nn, _, y)) => {
                            assert(object_nets(old_v.nodes[k].object) == on@);
                            assert(object_nets(v.nodes[k].object) == nn@);
                            assert(x == y);
                        },
                        _ => {},
                    }
                }
            }
            assert forall|a: int, j: int|
                0 <= a < v.nodes.len() && 0 <= j < v.nodes[a].operands.len()
                    && #[trigger] v.nodes[a].operands[j] is Some implies valid_operand(v, v.nodes[a].operands[j].unwrap()) by {
                if a != i {
                    assert(v.nodes[a] == old_v.nodes[a]);
                }
                assert(old_v.nodes[a].operands[j] is Some);
            }
            assert forall|k: int| 0 <= k < v.outputs.len() implies valid_operand(v, (#[trigger] v.outputs[k]).0) by {
                assert(old_v.outputs[k] == v.outputs[k]);
            }
            assert forall|k: int| 0 <= k < self.objects@.len() implies (#[trigger] self.objects@[k]).index == k by {
                if k != i {
                    assert(self.objects@[k] == old(self).objects@[k]);
                }
            }
        }
    }

    /// Binds output operand `op` to `net`, replacing an earlier binding of `op`.
    #[verifier::spinoff_prover]
    fn set_output(&mut self, op: Operand, net: Net)
        requires
            old(self).wf(),
            valid_operand(old(self)@, op),
        ensures
            final(self).wf(),
            final(self)@ == (NetlistView { outputs: outputs_insert(old(self)@.outputs, op, net@), ..old(self)@ }),
    {
        let ghost old_v = self@;
        let mut k: usize = 0;
        while k < self.outputs.len()
            invariant
                self@ == old_v,
                old_v == old(self)@,
                self.wf(),
                k <= self@.outputs.len(),
                forall|j: int| 0 <= j < k ==> (#[trigger] self@.outputs[j]).0 != op,
            decreases self@.outputs.len() - k,
        {
            if self.outputs[k].0 == op {
                proof {
                    assert(self@.outputs[k as int].0 == op);
                    assert(has_key(old_v.outputs, op));
                    let c = choose|c: int| 0 <= c < old_v.outputs.len() && (#[trigger] old_v.outputs[c]).0 == op;
                    if c != k {
                        if c < k {
                            assert(old_v.outputs[c].0 != op);
                        } else {
                            assert(output_keys_unique(old_v.outputs));
                            assert(old_v.outputs[k as int].0 != old_v.outputs[c].0);
                        }
                    }
                }
                let ghost objs = self.objects@;
                self.outputs.set(k, (op, net));
                proof {
                    assert(self.objects@ == objs);
                    let v = self@;
                    assert(v.outputs =~= old_v.outputs.update(k as int, (op, net@)));
                    assert(v.nodes == old_v.nodes);
                    assert forall|a: int, b: int| 0 <= a < b < v.outputs.len() implies (#[trigger] v.outputs[a]).0 != (#[trigger] v.outputs[b]).0 by {
                        assert(old_v.outputs[a].0 != old_v.outputs[b].0);
                    }
                    assert forall|j: int| 0 <= j < v.outputs.len() implies valid_operand(v, (#[trigger] v.outputs[j]).0) by {
                        if j != k {
                            assert(v.outputs[j] == old_v.outputs[j]);
                        }
                    }
                    assert(v == NetlistView { outputs: outputs_insert(old_v.outputs, op, net@), ..old_v });
                    assert(old_v == old(self)@);
                }
                return;
            }
            k = k + 1;
        }
        let ghost objs = self.objects@;
        self.outputs.push((op, net));
        proof {
            assert(self.objects@ == objs);
            let v = self@;
            assert(!has_key(old_v.outputs, op));
            assert(v.outputs =~= old_v.outputs.push((op, net@)));
            assert(v.nodes == old_v.nodes);
            assert forall|a: int, b: int| 0 <= a < b < v.outputs.len() implies (#[trigger] v.outputs[a]).0 != (#[trigger] v.outputs[b]).0 by {
                if b < old_v.outputs.len() {
                    assert(old_v.outputs[a].0 != old_v.outputs[b].0);
                }
            }
            assert forall|j: int| 0 <= j < v.outputs.len() implies valid_operand(v, (#[trigger] v.outputs[j]).0) by {
                if j < old_v.outputs.len() {
                    assert(v.outputs[j] == old_v.outputs[j]);
                }
            }
            assert(v == NetlistView { outputs: outputs_insert(old_v.outputs, op, net@), ..old_v });
        }
    }

    /// Exposes the output that `net` stands for as a top-level output bound
    /// to a net named `name`, of the same data type. Succeeds for principal
    /// inputs too: the alias is emitted as an assignment.
    pub fn expose_net_with_name(&mut self, net: DrivenNet, name: Identifier) -> (r: DrivenNet)
        requires
            old(self).wf(),
            valid_driven(old(self)@, net@),
        ensures
            final(self).wf(),
            r == net,
            final(self)@ == (NetlistView {
                outputs: outputs_insert(
                    old(self)@.outputs,
                    driven_operand(old(self)@, net@),
                    (name@, nets_at(old(self)@, net@.0 as int)[net@.1 as int]@.1),
                ),
                ..old(self)@
            }),
    {
        let op = self.operand_of(&net);
        let bound = self.net_at(net.netref.index, net.pos).with_identifier(name);
        self.set_output(op, bound);
        net
    }

    /// Exposes the output that `net` stands for as a top-level output under
    /// its own name. Fails, changing nothing, when `net` is a principal input.
    pub fn expose_net(&mut self, net: DrivenNet) -> (r: Result<DrivenNet, NetlistError>)
        requires
            old(self).wf(),
            valid_driven(old(self)@, net@),
        ensures
            final(self).wf(),
            is_input_at(old(self)@, net@.0 as int) ==> r == Err::<DrivenNet, NetlistError>(NetlistError::InputAsOutput)
                && final(self)@ == old(self)@,
            !is_input_at(old(self)@, net@.0 as int) ==> r == Ok::<DrivenNet, NetlistError>(net)
                && final(self)@ == (NetlistView {
                outputs: outputs_insert(
                    old(self)@.outputs,
                    driven_operand(old(self)@, net@),
                    nets_at(old(self)@, net@.0 as int)[net@.1 as int]@,
                ),
                ..old(self)@
            }),
    {
        if self.is_input_node(net.netref.index) {
            return Err(NetlistError::InputAsOutput);
        }
        let op = self.operand_of(&net);
        let bound = self.net_at(net.netref.index, net.pos).clone();
        self.set_output(op, bound);
        Ok(net)
    }

    /// Node `i` is a principal input.
    fn is_input_node(&self, i: usize) -> (r: bool)
        requires
            i < self@.nodes.len(),
        ensures
            r == is_input_at(self@, i as int),
    {
        proof {
            assert(self@.nodes[i as int] == self.objects@[i as int]@);
        }
        match &self.objects[i].object {
            Object::Input(_) => true,
            Object::Instance(_, _, _) => false,
        }
    }

    /// The object stored at node `i`.
    fn object_at(&self, i: usize) -> (r: &Object<I>)
        requires
            i < self@.nodes.len(),
        ensures
            *r == self@.nodes[i as int].object,
    {
        proof {
            assert(self@.nodes[i as int] == self.objects@[i as int]@);
        }
        &self.objects[i].object
    }

    /// The operand in slot `j` of node `i`.
    fn operand_at(&self, i: usize, j: usize) -> (r: Option<Operand>)
        requires
            i < self@.nodes.len(),
            j < self@.nodes[i as int].operands.len(),
        ensures
            r == self@.nodes[i as int].operands[j as int],
    {
        proof {
            assert(self@.nodes[i as int] == self.objects@[i as int]@);
        }
        self.objects[i].operands[j]
    }

    /// The number of input slots of node `i`.
    fn n_operands(&self, i: usize) -> (r: usize)
        requires
            i < self@.nodes.len(),
        ensures
            r == self@.nodes[i as int].operands.len(),
    {
        proof {
            assert(self@.nodes[i as int] == self.objects@[i as int]@);
        }
        self.objects[i].operands.len()
    }

    /// Returns the node that drives input `index` of `netref`, if connected.
    pub fn get_driver(&self, netref: NetRef, index: usize) -> (r: Option<NetRef>)
        requires
            self.wf(),
            valid_ref(self@, netref@),
            index < self@.nodes[netref@.0 as int].operands.len(),
        ensures
            match self@.nodes[netref@.0 as int].operands[index as int] {
                Some(op) => r is Some && r.unwrap()@ == (op_root(op), self@.epoch),
                None => r is None,
            },
    {
        match self.operand_at(netref.index, index) {
            Some(op) => Some(self.netref_at(op.root())),
            None => None,
        }
    }

    /// Returns a handle to the first node in store order.
    pub fn first(&self) -> (r: Option<NetRef>)
        ensures
            self@.nodes.len() == 0 ==> r is None,
            self@.nodes.len() > 0 ==> r is Some && r.unwrap()@ == (0nat, self@.epoch),
    {
        if self.objects.len() == 0 {
            None
        } else {
            Some(self.netref_at(0))
        }
    }

    /// Returns a handle to the last node in store order.
    pub fn last(&self) -> (r: Option<NetRef>)
        ensures
            self@.nodes.len() == 0 ==> r is None,
            self@.nodes.len() > 0 ==> r is Some && r.unwrap()@ == ((self@.nodes.len() - 1) as nat, self@.epoch),
    {
        proof {
            assert(self@.nodes.len() == self.objects@.len());
        }
        if self.objects.len() == 0 {
            None
        } else {
            Some(self.netref_at(self.objects.len() - 1))
        }
    }

    /// Returns `true` iff some output of `netref` drives a top-level output.
    pub fn drives_an_output(&self, netref: NetRef) -> (r: bool)
        requires
            self.wf(),
        ensures
            r == exists|k: int| 0 <= k < self@.outputs.len() && op_root((#[trigger] self@.outputs[k]).0) == netref@.0,
    {
        let mut k: usize = 0;
        while k < self.outputs.len()
            invariant
                k <= self@.outputs.len(),
                self@.outputs.len() == self.outputs@.len(),
                forall|j: int| 0 <= j < k ==> op_root((#[trigger] self@.outputs[j]).0) != netref@.0,
            decreases self@.outputs.len() - k,
        {
            assert(self@.outputs[k as int].0 == self.outputs@[k as int].0);
            if self.outputs[k].0.root() == netref.index {
                return true;
            }
            k = k + 1;
        }
        false
    }

    /// Finds the first output, in store order, that drives a net equal to
    /// `net`. This is O(n); in a well-formed netlist the match is unique.
    #[verifier::spinoff_prover]
    pub fn find_net(&self, net: &Net) -> (r: Option<DrivenNet>)
        requires
            self.wf(),
        ensures
            match r {
                Some(d) => {
                    &&& valid_driven(self@, d@)
                    &&& nets_at(self@, d@.0 as int)[d@.1 as int]@ == net@
                    &&& forall|i: int, p: int|
                        0 <= i < self@.nodes.len() && 0 <= p < nets_at(self@, i).len()
                            && (#[trigger] nets_at(self@, i)[p])@ == net@ ==> (i, p) == (d@.0 as int, d@.1 as int) || i > d@.0
                            || (i == d@.0 && p > d@.1)
                },
                None => forall|i: int, p: int|
                    0 <= i < self@.nodes.len() && 0 <= p < nets_at(self@, i).len() ==> (#[trigger] nets_at(self@, i)[p])@ != net@,
            },
    {
        let mut i: usize = 0;
        while i < self.objects.len()
            invariant
                self@.nodes.len() == self.objects@.len(),
                i <= self@.nodes.len(),
                forall|a: int, p: int|
                    0 <= a < i && 0 <= p < nets_at(self@, a).len() ==> (#[trigger] nets_at(self@, a)[p])@ != net@,
            decreases self@.nodes.len() - i,
        {
            let n = self.n_nets(i);
            let mut p: usize = 0;
            while p < n
                invariant
                    self@.nodes.len() == self.objects@.len(),
                    i < self@.nodes.len(),
                    n == nets_at(self@, i as int).len(),
                    p <= n,
                    forall|a: int, q: int|
                        0 <= a < i && 0 <= q < nets_at(self@, a).len() ==> (#[trigger] nets_at(self@, a)[q])@ != net@,
                    forall|q: int| 0 <= q < p ==> (#[trigger] nets_at(self@, i as int)[q])@ != net@,
                decreases n - p,
            {
                if *self.net_at(i, p) == *net {
                    return Some(DrivenNet { pos: p, netref: self.netref_at(i) });
                }
                p = p + 1;
            }
            i = i + 1;
        }
        None
    }
}

/// `v` with slot `j` of node `i` set to `op`.
pub open spec fn with_operand<I>(v: NetlistView<I>, i: int, j: int, op: Option<Operand>) -> NetlistView<I> {
    NetlistView {
        nodes: v.nodes.update(i, NodeView { operands: v.nodes[i].operands.update(j, op), ..v.nodes[i] }),
        ..v
    }
}

/// `v` with the attributes of node `i` replaced by `attrs`.
pub open spec fn with_attributes<I>(v: NetlistView<I>, i: int, attrs: Seq<(Seq<char>, Option<Seq<char>>)>) -> NetlistView<I> {
    NetlistView { nodes: v.nodes.update(i, NodeView { attributes: attrs, ..v.nodes[i] }), ..v }
}

/// The position of the attribute keyed `k`, or -1.
pub open spec fn attr_pos(attrs: Seq<(Seq<char>, Option<Seq<char>>)>, k: Seq<char>) -> int {
    if exists|p: int| 0 <= p < attrs.len() && (#[trigger] attrs[p]).0 == k {
        choose|p: int| 0 <= p < attrs.len() && (#[trigger] attrs[p]).0 == k
    } else {
        -1
    }
}

/// The value of the attribute keyed `k`, if present.
pub open spec fn attr_lookup(attrs: Seq<(Seq<char>, Option<Seq<char>>)>, k: Seq<char>) -> Option<Option<Seq<char>>> {
    if attr_pos(attrs, k) >= 0 {
        Some(attrs[attr_pos(attrs, k)].1)
    } else {
        None
    }
}

/// `attrs` with `k` bound to `v`: replaced in place, or appended.
pub open spec fn attr_insert(attrs: Seq<(Seq<char>, Option<Seq<char>>)>, k: Seq<char>, v: Option<Seq<char>>) -> Seq<(Seq<char>, Option<Seq<char>>)> {
    if attr_pos(attrs, k) >= 0 {
        attrs.update(attr_pos(attrs, k), (k, v))
    } else {
        attrs.push((k, v))
    }
}

/// `attrs` without the attribute keyed `k`, order kept.
pub open spec fn attr_remove(attrs: Seq<(Seq<char>, Option<Seq<char>>)>, k: Seq<char>) -> Seq<(Seq<char>, Option<Seq<char>>)> {
    if attr_pos(attrs, k) >= 0 {
        attrs.remove(attr_pos(attrs, k))
    } else {
        attrs
    }
}

impl<I: Instantiable> Netlist<I> {
    /// Sets slot `j` of node `i` to `op`.
    #[verifier::spinoff_prover]
    fn set_operand(&mut self, i: usize, j: usize, op: Option<Operand>)
        requires
            old(self).wf(),
            i < old(self)@.nodes.len(),
            j < old(self)@.nodes[i as int].operands.len(),
            op matches Some(o) ==> valid_operand(old(self)@, o),
        ensures
            final(self).wf(),
            final(self)@ == with_operand(old(self)@, i as int, j as int, op),
    {
        let ghost old_v = self@;
        proof {
            assert(self@.nodes[i as int] == self.objects@[i as int]@);
        }
        self.objects[i].operands.set(j, op);
        proof {
            let v = self@;
            let w = with_operand(old_v, i as int, j as int, op);
            assert forall|k: int| 0 <= k < v.nodes.len() implies #[trigger] v.nodes[k] == w.nodes[k] by {
                if k != i {
                    assert(self.objects@[k] == old(self).objects@[k]);
                } else {
                    assert(v.nodes[k].operands =~= w.nodes[k].operands);
                }
            }
            assert(v.nodes =~= w.nodes);
            assert(v.outputs =~= w.outputs);
            assert forall|k: int| 0 <= k < old_v.nodes.len() implies (#[trigger] nets_at(old_v, k)).len() == nets_at(v, k).len() by {
                assert(v.nodes[k].object == old_v.nodes[k].object);
            }
            lemma_same_shape(old_v, v);
            assert forall|k: int| 0 <= k < v.nodes.len() implies node_wf(#[trigger] v.nodes[k]) by {
                assert(node_wf(old_v.nodes[k]));
            }
            assert forall|a: int, b: int|
                0 <= a < v.nodes.len() && 0 <= b < v.nodes[a].operands.len()
                    && #[trigger] v.nodes[a].operands[b] is Some implies valid_operand(v, v.nodes[a].operands[b].unwrap()) by {
                if a != i || b != j {
                    assert(v.nodes[a].operands[b] == old_v.nodes[a].operands[b]);
                }
            }
            assert forall|k: int| 0 <= k < v.outputs.len() implies valid_operand(v, (#[trigger] v.outputs[k]).0) by {
                assert(old_v.outputs[k] == v.outputs[k]);
            }
            assert forall|k: int| 0 <= k < self.objects@.len() implies (#[trigger] self.objects@[k]).index == k by {
                if k != i {
                    assert(self.objects@[k] == old(self).objects@[k]);
                }
            }
        }
    }

    /// Replaces the attributes of node `i`.
    #[verifier::spinoff_prover]
    fn set_attributes(&mut self, i: usize, attrs: Vec<Attribute>)
        requires
            old(self).wf(),
            i < old(self)@.nodes.len(),
            forall|a: int, b: int| 0 <= a < b < attrs@.len() ==> (#[trigger] attrs@[a])@.0 != (#[trigger] attrs@[b])@.0,
        ensures
            final(self).wf(),
            final(self)@ == with_attributes(old(self)@, i as int, attrs@.map_values(|a: Attribute| a@)),
    {
        let ghost old_v = self@;
        let ghost av = attrs@.map_values(|a: Attribute| a@);
        proof {
            assert(self@.nodes[i as int] == self.objects@[i as int]@);
        }
        self.objects[i].attributes = attrs;
        proof {
            let v = self@;
            let w = with_attributes(old_v, i as int, av);
            assert forall|k: int| 0 <= k < v.nodes.len() implies #[trigger] v.nodes[k] == w.nodes[k] by {
                if k != i {
                    assert(self.objects@[k] == old(self).objects@[k]);
                }
            }
            assert(v.nodes =~= w.nodes);
            assert(v.outputs =~= w.outputs);
            assert forall|k: int| 0 <= k < old_v.nodes.len() implies (#[trigger] nets_at(old_v, k)).len() == nets_at(v, k).len() by {
                assert(v.nodes[k].object == old_v.nodes[k].object);
            }
            lemma_same_shape(old_v, v);
            assert forall|k: int| 0 <= k < v.nodes.len() implies node_wf(#[trigger] v.nodes[k]) by {
                assert(node_wf(old_v.nodes[k]));
                if k == i {
                    assert forall|a: int, b: int| 0 <= a < b < v.nodes[k].attributes.len() implies (#[trigger] v.nodes[k].attributes[a]).0
                        != (#[trigger] v.nodes[k].attributes[b]).0 by {
                        assert(attrs@[a]@.0 != attrs@[b]@.0);
                    }
                }
            }
            assert forall|a: int, b: int|
                0 <= a < v.nodes.len() && 0 <= b < v.nodes[a].operands.len()
                    && #[trigger] v.nodes[a].operands[b] is Some implies valid_operand(v, v.nodes[a].operands[b].unwrap()) by {
                assert(v.nodes[a].operands[b] == old_v.nodes[a].operands[b]);
            }
            assert forall|k: int| 0 <= k < v.outputs.len() implies valid_operand(v, (#[trigger] v.outputs[k]).0) by {
                assert(old_v.outputs[k] == v.outputs[k]);
            }
            assert forall|k: int| 0 <= k < self.objects@.len() implies (#[trigger] self.objects@[k]).index == k by {
                if k != i {
                    assert(self.objects@[k] == old(self).objects@[k]);
                }
            }
        }
    }

    /// Copies the attributes of node `i`.
    fn attributes_at(&self, i: usize) -> (r: Vec<Attribute>)
        requires
            i < self@.nodes.len(),
        ensures
            r@.map_values(|a: Attribute| a@) == self@.nodes[i as int].attributes,
    {
        proof {
            assert(self@.nodes[i as int] == self.objects@[i as int]@);
        }
        let src = &self.objects[i].attributes;
        let mut r: Vec<Attribute> = Vec::new();
        let mut k: usize = 0;
        while k < src.len()
            invariant
                k <= src@.len(),
                r@.len() == k,
                forall|j: int| 0 <= j < k ==> (#[trigger] r@[j])@ == src@[j]@,
            decreases src@.len() - k,
        {
            r.push(src[k].clone());
            k = k + 1;
        }
        proof {
            assert(r@.map_values(|a: Attribute| a@) =~= src@.map_values(|a: Attribute| a@));
        }
        r
    }

    /// Binds attribute `k` of node `i` to `v`; returns the previous value.
    #[verifier::spinoff_prover]
    fn put_attribute(&mut self, i: usize, k: AttributeKey, v: AttributeValue) -> (r: Option<AttributeValue>)
        requires
            old(self).wf(),
            i < old(self)@.nodes.len(),
        ensures
            final(self).wf(),
            final(self)@ == with_attributes(old(self)@, i as int, attr_insert(old(self)@.nodes[i as int].attributes, k@, value_view(v))),
            match r {
                Some(p) => attr_lookup(old(self)@.nodes[i as int].attributes, k@) == Some(value_view(p)),
                None => attr_lookup(old(self)@.nodes[i as int].attributes, k@) is None,
            },
    {
        let mut attrs = self.attributes_at(i);
        let ghost av = self@.nodes[i as int].attributes;
        proof {
            assert(node_wf(self@.nodes[i as int]));
        }
        let mut p: usize = 0;
        while p < attrs.len()
            invariant
                self.wf(),
                self@ == old(self)@,
                i < self@.nodes.len(),
                av == self@.nodes[i as int].attributes,
                node_wf(self@.nodes[i as int]),
                p <= attrs@.len(),
                attrs@.map_values(|a: Attribute| a@) == av,
                forall|j: int| 0 <= j < p ==> (#[trigger] av[j]).0 != k@,
            decreases attrs@.len() - p,
        {
            assert(attrs@[p as int]@ == av[p as int]);
            if *attrs[p].key() == k {
                let prev = clone_value(attrs[p].value());
                let ghost before = attrs@;
                let ghost vv = value_view(v);
                attrs.set(p, Attribute::new(k, v));
                proof {
                    assert(attr_pos(av, k@) == p) by {
                        let c = choose|c: int| 0 <= c < av.len() && (#[trigger] av[c]).0 == k@;
                        if c != p {
                            if c < p {
                                assert(av[c].0 != k@);
                            } else {
                                assert(av[p as int].0 != av[c].0);
                            }
                        }
                    }
                    assert(attrs@.map_values(|a: Attribute| a@) =~= attr_insert(av, k@, vv));
                    assert forall|a: int, b: int| 0 <= a < b < attrs@.len() implies (#[trigger] attrs@[a])@.0 != (#[trigger] attrs@[b])@.0 by {
                        assert(av[a].0 != av[b].0);
                    }
                }
                self.set_attributes(i, attrs);
                return Some(prev);
            }
            p = p + 1;
        }
        let ghost vv = value_view(v);
        attrs.push(Attribute::new(k, v));
        proof {
            assert(attr_pos(av, k@) == -1);
            assert(attrs@.map_values(|a: Attribute| a@) =~= attr_insert(av, k@, vv));
            assert forall|a: int, b: int| 0 <= a < b < attrs@.len() implies (#[trigger] attrs@[a])@.0 != (#[trigger] attrs@[b])@.0 by {
                if b < av.len() {
                    assert(av[a].0 != av[b].0);
                } else {
                    assert(attrs@[a]@ == av[a]);
                }
            }
        }
        self.set_attributes(i, attrs);
        None
    }

    /// Removes attribute `k` of node `i`; returns its value, if it was set.
    #[verifier::spinoff_prover]
    fn drop_attribute(&mut self, i: usize, k: &AttributeKey) -> (r: Option<AttributeValue>)
        requires
            old(self).wf(),
            i < old(self)@.nodes.len(),
        ensures
            final(self).wf(),
            final(self)@ == with_attributes(old(self)@, i as int, attr_remove(old(self)@.nodes[i as int].attributes, k@)),
            match r {
                Some(p) => attr_lookup(old(self)@.nodes[i as int].attributes, k@) == Some(value_view(p)),
                None => attr_lookup(old(self)@.nodes[i as int].attributes, k@) is None,
            },
    {
        let mut attrs = self.attributes_at(i);
        let ghost av = self@.nodes[i as int].attributes;
        proof {
            assert(node_wf(self@.nodes[i as int]));
        }
        let mut p: usize = 0;
        while p < attrs.len()
            invariant
                self.wf(),
                self@ == old(self)@,
                i < self@.nodes.len(),
                av == self@.nodes[i as int].attributes,
                node_wf(self@.nodes[i as int]),
                p <= attrs@.len(),
                attrs@.map_values(|a: Attribute| a@) == av,
                forall|j: int| 0 <= j < p ==> (#[trigger] av[j]).0 != k@,
            decreases attrs@.len() - p,
        {
            assert(attrs@[p as int]@ == av[p as int]);
            if *attrs[p].key() == *k {
                let prev = clone_value(attrs[p].value());
                let ghost before = attrs@;
                attrs.remove(p);
                proof {
                    assert(attr_pos(av, k@) == p) by {
                        let c = choose|c: int| 0 <= c < av.len() && (#[trigger] av[c]).0 == k@;
                        if c != p {
                            if c < p {
                                assert(av[c].0 != k@);
                            } else {
                                assert(av[p as int].0 != av[c].0);
                            }
                        }
                    }
                    assert(attrs@.map_values(|a: Attribute| a@) =~= attr_remove(av, k@));
                    assert forall|a: int, b: int| 0 <= a < b < attrs@.len() implies (#[trigger] attrs@[a])@.0 != (#[trigger] attrs@[b])@.0 by {
                        let a2 = if a < p { a } else { a + 1 };
                        let b2 = if b < p { b } else { b + 1 };
                        assert(attrs@[a]@ == av[a2]);
                        assert(attrs@[b]@ == av[b2]);
                        assert(av[a2].0 != av[b2].0);
                    }
                }
                self.set_attributes(i, attrs);
                return Some(prev);
            }
            p = p + 1;
        }
        proof {
            assert(attr_pos(av, k@) == -1);
            assert(node_wf(self@.nodes[i as int]));
            assert(with_attributes(self@, i as int, av).nodes =~= self@.nodes);
        }
        None
    }
}

/// A slot after every use of node `idx` is rewritten to `to`.
pub open spec fn slot_rewrite(op: Option<Operand>, idx: nat, to: Option<Operand>) -> Option<Operand> {
    match op {
        Some(o) => if op_root(o) == idx {
            to
        } else {
            op
        },
        None => None,
    }
}

/// `new` is `old` with every slot that uses node `idx` rewritten to `to`;
/// objects and attributes are kept.
pub open spec fn slots_rewritten<I>(old: NetlistView<I>, new: NetlistView<I>, idx: nat, to: Option<Operand>) -> bool {
    &&& new.nodes.len() == old.nodes.len()
    &&& forall|i: int| 0 <= i < old.nodes.len() ==> {
        &&& (#[trigger] new.nodes[i]).object == old.nodes[i].object
        &&& new.nodes[i].attributes == old.nodes[i].attributes
        &&& new.nodes[i].operands.len() == old.nodes[i].operands.len()
        &&& forall|j: int| 0 <= j < old.nodes[i].operands.len() ==> #[trigger] new.nodes[i].operands[j]
            == slot_rewrite(old.nodes[i].operands[j], idx, to)
    }
}

/// The position of the output keyed `op`, or -1.
pub open spec fn out_pos(outs: Seq<(Operand, NetView)>, op: Operand) -> int {
    if has_key(outs, op) {
        choose|k: int| 0 <= k < outs.len() && (#[trigger] outs[k]).0 == op
    } else {
        -1
    }
}

/// The outputs after the uses of `of` are replaced by `with`: when `with`
/// is already exposed the entry of `of` is dropped; otherwise the entry of
/// `of`, if any, is rekeyed to `with`.
pub open spec fn outputs_replaced(outs: Seq<(Operand, NetView)>, of: Operand, with: Operand) -> Seq<(Operand, NetView)> {
    if has_key(outs, with) {
        if has_key(outs, of) {
            outs.remove(out_pos(outs, of))
        } else {
            outs
        }
    } else if has_key(outs, of) {
        outs.update(out_pos(outs, of), (with, outs[out_pos(outs, of)].1))
    } else {
        outs
    }
}

/// The entry of an output is not driven by node `idx`.
pub open spec fn not_rooted_at(idx: nat) -> spec_fn((Operand, NetView)) -> bool {
    |p: (Operand, NetView)| op_root(p.0) != idx
}

/// `a` is a copy of `b`: the same kind of object with equal nets and names.
pub open spec fn object_copy<I: Clone>(a: Object<I>, b: Object<I>) -> bool {
    &&& object_nets(a).len() == object_nets(b).len()
    &&& forall|k: int| 0 <= k < object_nets(a).len() ==> (#[trigger] object_nets(a)[k])@ == object_nets(b)[k]@
    &&& match (a, b) {
        (Object::Input(_), Object::Input(_)) => true,
        (Object::Instance(_, x, s), Object::Instance(_, y, t)) => x@ == y@ && cloned(t, s),
        _ => false,
    }
}

impl<I: Instantiable + Clone> Netlist<I> {
    /// Copies the object at node `i`.
    fn copy_object(&self, i: usize) -> (r: Object<I>)
        requires
            i < self@.nodes.len(),
        ensures
            object_copy(r, self@.nodes[i as int].object),
    {
        match self.object_at(i) {
            Object::Input(net) => Object::Input(net.clone()),
            Object::Instance(nets, name, inst) => Object::Instance(clone_nets(nets), name.clone(), inst.clone()),
        }
    }
}

impl<I: Instantiable> Netlist<I> {
    /// Rewrites every slot that uses node `idx` to `to`.
    #[verifier::spinoff_prover]
    fn rewrite_uses(&mut self, idx: usize, to: Option<Operand>)
        requires
            old(self).wf(),
            to matches Some(o) ==> valid_operand(old(self)@, o),
        ensures
            final(self).wf(),
            slots_rewritten(old(self)@, final(self)@, idx as nat, to),
            final(self)@.outputs == old(self)@.outputs,
            final(self)@.name == old(self)@.name,
            final(self)@.epoch == old(self)@.epoch,
    {
        let ghost o = self@;
        let n = self.objects.len();
        let mut i: usize = 0;
        while i < n
            invariant
                self.wf(),
                n == o.nodes.len(),
                i <= n,
                self@.nodes.len() == n,
                self@.outputs == o.outputs,
                self@.name == o.name,
                self@.epoch == o.epoch,
                to matches Some(t) ==> valid_operand(self@, t),
                forall|a: int| 0 <= a < n ==> (#[trigger] nets_at(self@, a)).len() == nets_at(o, a).len(),
                forall|a: int| 0 <= a < n ==> {
                    &&& (#[trigger] self@.nodes[a]).object == o.nodes[a].object
                    &&& self@.nodes[a].attributes == o.nodes[a].attributes
                    &&& self@.nodes[a].operands.len() == o.nodes[a].operands.len()
                    &&& forall|b: int| 0 <= b < o.nodes[a].operands.len() ==> #[trigger] self@.nodes[a].operands[b]
                        == if a < i { slot_rewrite(o.nodes[a].operands[b], idx as nat, to) } else { o.nodes[a].operands[b] }
                },
            decreases n - i,
        {
            let m = self.n_operands(i);
            let mut j: usize = 0;
            while j < m
                invariant
                    self.wf(),
                    n == o.nodes.len(),
                    i < n,
                    m == o.nodes[i as int].operands.len(),
                    j <= m,
                    self@.nodes.len() == n,
                    self@.outputs == o.outputs,
                    self@.name == o.name,
                    self@.epoch == o.epoch,
                    to matches Some(t) ==> valid_operand(self@, t),
                    forall|a: int| 0 <= a < n ==> (#[trigger] nets_at(self@, a)).len() == nets_at(o, a).len(),
                    forall|a: int| 0 <= a < n ==> {
                        &&& (#[trigger] self@.nodes[a]).object == o.nodes[a].object
                        &&& self@.nodes[a].attributes == o.nodes[a].attributes
                        &&& self@.nodes[a].operands.len() == o.nodes[a].operands.len()
                        &&& forall|b: int| 0 <= b < o.nodes[a].operands.len() ==> #[trigger] self@.nodes[a].operands[b]
                            == if a < i || (a == i && b < j) { slot_rewrite(o.nodes[a].operands[b], idx as nat, to) } else { o.nodes[a].operands[b] }
                    },
                decreases m - j,
            {
                let cur = self.operand_at(i, j);
                match cur {
                    Some(op) => {
                        if op.root() == idx {
                            let ghost before = self@;
                            self.set_operand(i, j, to);
                            proof {
                                assert forall|a: int| 0 <= a < n implies (#[trigger] nets_at(self@, a)).len() == nets_at(o, a).len() by {
                                    assert(self@.nodes[a].object == before.nodes[a].object);
                                }
                                lemma_same_shape(before, self@);
                                assert forall|a: int| 0 <= a < n implies {
                                    &&& (#[trigger] self@.nodes[a]).object == o.nodes[a].object
                                    &&& self@.nodes[a].attributes == o.nodes[a].attributes
                                    &&& self@.nodes[a].operands.len() == o.nodes[a].operands.len()
                                    &&& forall|b: int| 0 <= b < o.nodes[a].operands.len() ==> #[trigger] self@.nodes[a].operands[b]
                                        == if a < i || (a == i && b < j + 1) { slot_rewrite(o.nodes[a].operands[b], idx as nat, to) } else { o.nodes[a].operands[b] }
                                } by {
                                    assert(before.nodes[a].object == o.nodes[a].object);
                                    if a == i {
                                        assert forall|b: int| 0 <= b < o.nodes[a].operands.len() implies #[trigger] self@.nodes[a].operands[b]
                                            == if a < i || (a == i && b < j + 1) { slot_rewrite(o.nodes[a].operands[b], idx as nat, to) } else { o.nodes[a].operands[b] } by {
                                            if b != j {
                                                assert(self@.nodes[a].operands[b] == before.nodes[a].operands[b]);
                                            }
                                        }
                                    }
                                }
                            }
                        }
                    },
                    None => {},
                }
                j = j + 1;
            }
            i = i + 1;
        }
    }

    /// Replaces the list of outputs.
    fn set_outputs(&mut self, outs: Vec<(Operand, Net)>)
        requires
            old(self).wf(),
            output_keys_unique(outs@.map_values(|p: (Operand, Net)| (p.0, p.1@))),
            forall|k: int| 0 <= k < outs@.len() ==> valid_operand(old(self)@, (#[trigger] outs@[k]).0),
        ensures
            final(self).wf(),
            final(self)@ == (NetlistView { outputs: outs@.map_values(|p: (Operand, Net)| (p.0, p.1@)), ..old(self)@ }),
    {
        let ghost objs = self.objects@;
        self.outputs = outs;
        proof {
            assert(self.objects@ == objs);
            assert(self@.nodes == old(self)@.nodes);
            let v = self@;
            assert forall|k: int| 0 <= k < v.outputs.len() implies valid_operand(v, (#[trigger] v.outputs[k]).0) by {
                assert(v.outputs[k].0 == outs@[k].0);
            }
        }
    }

    /// Unlinks `netref` from the rest of the netlist: every input slot that
    /// it drives becomes unconnected and every top-level output that it
    /// drives is removed. The node itself stays in the store (a later
    /// [Netlist::clean] drops it); a copy of its object is returned.
    #[verifier::spinoff_prover]
    pub fn delete_net_uses(&mut self, netref: NetRef) -> (r: Result<Object<I>, NetlistError>)
        where I: Clone
        requires
            old(self).wf(),
            valid_ref(old(self)@, netref@),
        ensures
            final(self).wf(),
            slots_rewritten(old(self)@, final(self)@, netref@.0, None),
            final(self)@.outputs == old(self)@.outputs.filter(not_rooted_at(netref@.0)),
            final(self)@.name == old(self)@.name,
            final(self)@.epoch == old(self)@.epoch,
            r is Ok && object_copy(r.unwrap(), old(self)@.nodes[netref@.0 as int].object),
    {
        let copy = self.copy_object(netref.index);
        self.rewrite_uses(netref.index, None);
        let ghost mid = self@;
        let mut kept: Vec<(Operand, Net)> = Vec::new();
        let mut k: usize = 0;
        while k < self.outputs.len()
            invariant
                self@ == mid,
                self.wf(),
                k <= mid.outputs.len(),
                self.outputs@.len() == mid.outputs.len(),
                kept@.map_values(|p: (Operand, Net)| (p.0, p.1@)) == mid.outputs.subrange(0, k as int).filter(not_rooted_at(netref@.0)),
                forall|a: int| 0 <= a < kept@.len() ==> exists|b: int| 0 <= b < k && (#[trigger] kept@[a]).0 == #[trigger] mid.outputs[b].0,
            decreases mid.outputs.len() - k,
        {
            let ghost before = kept@;
            let ghost x = mid.outputs[k as int];
            proof {
                assert(mid.outputs.subrange(0, k + 1) =~= mid.outputs.subrange(0, k as int).push(x));
                mid.outputs.subrange(0, k as int).lemma_filter_push(x, not_rooted_at(netref@.0));
                assert(self.outputs@[k as int].0 == x.0 && self.outputs@[k as int].1@ == x.1);
            }
            if self.outputs[k].0.root() != netref.index {
                let e = (self.outputs[k].0, self.outputs[k].1.clone());
                kept.push(e);
                proof {
                    assert(kept@.map_values(|p: (Operand, Net)| (p.0, p.1@)) =~= before.map_values(|p: (Operand, Net)| (p.0, p.1@)).push(x));
                    assert forall|a: int| 0 <= a < kept@.len() implies exists|b: int| 0 <= b < k + 1 && (#[trigger] kept@[a]).0 == #[trigger] mid.outputs[b].0 by {
                        if a < before.len() {
                            assert(kept@[a] == before[a]);
                        } else {
                            assert(kept@[a].0 == mid.outputs[k as int].0);
                        }
                    }
                }
            }
            k = k + 1;
        }
        proof {
            assert(mid.outputs.subrange(0, mid.outputs.len() as int) =~= mid.outputs);
            let kv = kept@.map_values(|p: (Operand, Net)| (p.0, p.1@));
            let pred = not_rooted_at(netref@.0);
            assert forall|a: int, b: int| 0 <= a < b < kv.len() implies (#[trigger] kv[a]).0 != (#[trigger] kv[b]).0 by {
                lemma_filter_keys_unique(mid.outputs, pred);
            }
            assert forall|a: int| 0 <= a < kept@.len() implies valid_operand(self@, (#[trigger] kept@[a]).0) by {
                let b = choose|b: int| 0 <= b < mid.outputs.len() && kept@[a].0 == #[trigger] mid.outputs[b].0;
                assert(valid_operand(mid, mid.outputs[b].0));
            }
        }
        self.set_outputs(kept);
        Ok(copy)
    }
}

/// Filtering keeps keys distinct.
pub proof fn lemma_filter_keys_unique(outs: Seq<(Operand, NetView)>, pred: spec_fn((Operand, NetView)) -> bool)
    requires
        output_keys_unique(outs),
    ensures
        output_keys_unique(outs.filter(pred)),
    decreases outs.len(),
{
    reveal(Seq::filter);
    if outs.len() > 0 {
        let init = outs.drop_last();
        assert(output_keys_unique(init)) by {
            assert forall|a: int, b: int| 0 <= a < b < init.len() implies (#[trigger] init[a]).0 != (#[trigger] init[b]).0 by {
                assert(outs[a].0 != outs[b].0);
            }
        }
        lemma_filter_keys_unique(init, pred);
        let f = init.filter(pred);
        if pred(outs.last()) {
            assert forall|a: int| 0 <= a < f.len() implies (#[trigger] f[a]).0 != outs.last().0 by {
                assert(f.contains(f[a]));
                init.lemma_filter_contains_rev(pred, f[a]);
                let c = choose|c: int| 0 <= c < init.len() && init[c] == f[a];
                assert(outs[c].0 != outs[outs.len() - 1].0);
            }
            let g = f.push(outs.last());
            assert forall|a: int, b: int| 0 <= a < b < g.len() implies (#[trigger] g[a]).0 != (#[trigger] g[b]).0 by {
                if b < f.len() {
                    assert(f[a].0 != f[b].0);
                } else {
                    assert(f[a].0 != outs.last().0);
                }
            }
        }
    }
}

impl<I: Instantiable> Netlist<I> {
    /// The position of the output keyed `op`, if any.
    fn find_key(&self, op: Operand) -> (r: Option<usize>)
        requires
            self.wf(),
        ensures
            r is None <==> !has_key(self@.outputs, op),
            r matches Some(k) ==> k == out_pos(self@.outputs, op) && k < self@.outputs.len()
                && self@.outputs[k as int].0 == op,
    {
        let mut k: usize = 0;
        while k < self.outputs.len()
            invariant
                self.wf(),
                k <= self@.outputs.len(),
                self.outputs@.len() == self@.outputs.len(),
                forall|j: int| 0 <= j < k ==> (#[trigger] self@.outputs[j]).0 != op,
            decreases self@.outputs.len() - k,
        {
            assert(self@.outputs[k as int].0 == self.outputs@[k as int].0);
            if self.outputs[k].0 == op {
                proof {
                    let outs = self@.outputs;
                    assert(has_key(outs, op));
                    let c = choose|c: int| 0 <= c < outs.len() && (#[trigger] outs[c]).0 == op;
                    if c != k {
                        if c < k {
                            assert(outs[c].0 != op);
                        } else {
                            assert(outs[k as int].0 != outs[c].0);
                        }
                    }
                }
                return Some(k);
            }
            k = k + 1;
        }
        None
    }

    /// Replaces every use of `of` by `with`: each input slot that `of` drives
    /// is rewired to `with`, and a top-level output driven by `of` moves to
    /// `with` unless `with` already drives one, in which case it is dropped.
    /// Both nodes must have a single output. A copy of the object of `of` is
    /// returned; `of` itself stays in the store until [Netlist::clean].
    #[verifier::spinoff_prover]
    pub fn replace_net_uses(&mut self, of: NetRef, with: &NetRef) -> (r: Result<Object<I>, NetlistError>)
        where I: Clone
        requires
            old(self).wf(),
            valid_ref(old(self)@, of@),
            valid_ref(old(self)@, with@),
            nets_at(old(self)@, of@.0 as int).len() == 1,
            nets_at(old(self)@, with@.0 as int).len() == 1,
        ensures
            final(self).wf(),
            slots_rewritten(old(self)@, final(self)@, of@.0, Some(Operand::DirectIndex(with@.0 as usize))),
            final(self)@.outputs == outputs_replaced(
                old(self)@.outputs,
                Operand::DirectIndex(of@.0 as usize),
                Operand::DirectIndex(with@.0 as usize),
            ),
            final(self)@.name == old(self)@.name,
            final(self)@.epoch == old(self)@.epoch,
            r is Ok && object_copy(r.unwrap(), old(self)@.nodes[of@.0 as int].object),
    {
        let copy = self.copy_object(of.index);
        let old_op = Operand::DirectIndex(of.index);
        let new_op = Operand::DirectIndex(with.index);
        assert(valid_operand(self@, new_op));
        assert(valid_operand(self@, old_op));
        self.rewrite_uses(of.index, Some(new_op));
        let ghost mid = self@;
        proof {
            assert forall|a: int| 0 <= a < mid.nodes.len() implies (#[trigger] nets_at(old(self)@, a)).len() == nets_at(mid, a).len() by {
                assert(mid.nodes[a].object == old(self)@.nodes[a].object);
            }
            lemma_same_shape(old(self)@, mid);
        }
        let with_pos = self.find_key(new_op);
        let of_pos = self.find_key(old_op);
        match with_pos {
            Some(_) => {
                match of_pos {
                    Some(p) => {
                        let mut outs = self.clone_outputs();
                        outs.remove(p);
                        proof {
                            let ov = mid.outputs;
                            assert(outs@.map_values(|q: (Operand, Net)| (q.0, q.1@)) =~= ov.remove(p as int));
                            let nv = ov.remove(p as int);
                            assert forall|a: int, b: int| 0 <= a < b < nv.len() implies (#[trigger] nv[a]).0 != (#[trigger] nv[b]).0 by {
                                let a2 = if a < p { a } else { a + 1 };
                                let b2 = if b < p { b } else { b + 1 };
                                assert(ov[a2].0 != ov[b2].0);
                            }
                            assert forall|k: int| 0 <= k < outs@.len() implies valid_operand(self@, (#[trigger] outs@[k]).0) by {
                                let k2 = if k < p { k } else { k + 1 };
                                assert(outs@[k].0 == ov[k2].0);
                            }
                        }
                        self.set_outputs(outs);
                    },
                    None => {},
                }
            },
            None => {
                match of_pos {
                    Some(p) => {
                        let mut outs = self.clone_outputs();
                        let bound = outs[p].1.clone();
                        let ghost bv = bound@;
                        outs.set(p, (new_op, bound));
                        proof {
                            let ov = mid.outputs;
                            assert(bv == ov[p as int].1);
                            let nv = ov.update(p as int, (new_op, ov[p as int].1));
                            assert(outs@.map_values(|q: (Operand, Net)| (q.0, q.1@)) =~= nv);
                            assert forall|a: int, b: int| 0 <= a < b < nv.len() implies (#[trigger] nv[a]).0 != (#[trigger] nv[b]).0 by {
                                if a != p && b != p {
                                    assert(ov[a].0 != ov[b].0);
                                } else if a == p {
                                    assert(ov[b].0 != new_op);
                                } else {
                                    assert(ov[a].0 != new_op);
                                }
                            }
                            assert forall|k: int| 0 <= k < outs@.len() implies valid_operand(self@, (#[trigger] outs@[k]).0) by {
                                if k != p {
                                    assert(outs@[k].0 == ov[k].0);
                                }
                            }
                        }
                        self.set_outputs(outs);
                    },
                    None => {},
                }
            },
        }
        Ok(copy)
    }

    /// Copies the list of outputs.
    fn clone_outputs(&self) -> (r: Vec<(Operand, Net)>)
        ensures
            r@.map_values(|q: (Operand, Net)| (q.0, q.1@)) == self@.outputs,
    {
        let mut r: Vec<(Operand, Net)> = Vec::new();
        let mut k: usize = 0;
        while k < self.outputs.len()
            invariant
                k <= self.outputs@.len(),
                r@.len() == k,
                forall|j: int| 0 <= j < k ==> (#[trigger] r@[j]).0 == self.outputs@[j].0 && r@[j].1@ == self.outputs@[j].1@,
            decreases self.outputs@.len() - k,
        {
            r.push((self.outputs[k].0, self.outputs[k].1.clone()));
            k = k + 1;
        }
        proof {
            assert(r@.map_values(|q: (Operand, Net)| (q.0, q.1@)) =~= self@.outputs);
        }
        r
    }
}

/// Some input slot of the store is wired to an output of node `i`.
pub open spec fn used_by_slot<I>(v: NetlistView<I>, i: int) -> bool {
    exists|a: int, b: int|
        0 <= a < v.nodes.len() && 0 <= b < v.nodes[a].operands.len() && (#[trigger] v.nodes[a].operands[b]) is Some
            && op_root(v.nodes[a].operands[b].unwrap()) == i
}

/// Node `i` drives a top-level output.
pub open spec fn drives_output<I>(v: NetlistView<I>, i: int) -> bool {
    exists|k: int| 0 <= k < v.outputs.len() && op_root((#[trigger] v.outputs[k]).0) == i
}

/// Node `i` is dead: an instance with no fan-out that drives no top-level
/// output. Principal inputs are never dead.
pub open spec fn is_dead<I>(v: NetlistView<I>, i: int) -> bool {
    !is_input_at(v, i) && !used_by_slot(v, i) && !drives_output(v, i)
}

/// Some node of the store is dead.
pub open spec fn has_dead<I>(v: NetlistView<I>) -> bool {
    exists|i: int| 0 <= i < v.nodes.len() && is_dead(v, i)
}

/// The number of surviving (not dead) nodes before index `i`: the index
/// that node `i` gets after compaction.
pub open spec fn rank<I>(v: NetlistView<I>, i: int) -> nat
    decreases i,
{
    if i <= 0 {
        0
    } else {
        rank(v, i - 1) + if is_dead(v, i - 1) { 0nat } else { 1nat }
    }
}

/// A slot after compaction: its operand moves with the node it addresses.
pub open spec fn remap_slot<I>(v: NetlistView<I>, op: Option<Operand>) -> Option<Operand> {
    match op {
        Some(o) => Some(op_remap(o, rank(v, op_root(o) as int) as usize)),
        None => None,
    }
}

/// Node `n` is node `i` of `old`, moved by compaction.
pub open spec fn moved_node<I>(old: NetlistView<I>, i: int, n: NodeView<I>) -> bool {
    &&& n.object == old.nodes[i].object
    &&& n.attributes == old.nodes[i].attributes
    &&& n.operands.len() == old.nodes[i].operands.len()
    &&& forall|j: int| 0 <= j < n.operands.len() ==> #[trigger] n.operands[j] == remap_slot(old, old.nodes[i].operands[j])
}

/// The epoch after `e`.
pub open spec fn next_epoch(e: u64) -> u64 {
    if e == u64::MAX { 0 } else { (e + 1) as u64 }
}

/// `new` is `old` with its dead nodes dropped, the survivors renumbered
/// contiguously, keeping their relative order, and every operand and output key
/// moved with the node it addresses.
pub open spec fn compacted<I>(old: NetlistView<I>, new: NetlistView<I>) -> bool {
    &&& new.nodes.len() == rank(old, old.nodes.len() as int)
    &&& forall|i: int| 0 <= i < old.nodes.len() && !is_dead(old, i) ==> rank(old, i) < new.nodes.len()
        && moved_node(old, i, #[trigger] new.nodes[rank(old, i) as int])
    &&& new.outputs == old.outputs.map_values(|p: (Operand, NetView)| (op_remap(p.0, rank(old, op_root(p.0) as int) as usize), p.1))
    &&& new.name == old.name
    &&& new.epoch == next_epoch(old.epoch)
}

/// Ranks grow with the index.
pub proof fn lemma_rank_mono<I>(v: NetlistView<I>, i: int, j: int)
    requires
        0 <= i <= j,
    ensures
        rank(v, i) <= rank(v, j),
        rank(v, j) <= j,
        !is_dead(v, i) && i < j ==> rank(v, i) < rank(v, j),
    decreases j,
{
    if j > 0 {
        if i < j {
            lemma_rank_mono(v, i, j - 1);
        } else {
            lemma_rank_mono(v, j - 1, j - 1);
        }
    }
}

/// Every index below the number of survivors is the rank of some survivor.
pub proof fn lemma_rank_onto<I>(v: NetlistView<I>, n: int, r: int)
    requires
        0 <= n,
        0 <= r < rank(v, n),
    ensures
        exists|i: int| 0 <= i < n && !is_dead(v, i) && #[trigger] rank(v, i) == r,
    decreases n,
{
    if r < rank(v, n - 1) {
        lemma_rank_onto(v, n - 1, r);
    } else {
        assert(!is_dead(v, n - 1) && rank(v, n - 1) == r);
    }
}

/// A node that some slot or output addresses survives compaction.
pub proof fn lemma_addressed_survives<I: Instantiable>(v: NetlistView<I>, op: Operand)
    requires
        view_wf(v),
        (exists|a: int, b: int|
            0 <= a < v.nodes.len() && 0 <= b < v.nodes[a].operands.len()
                && #[trigger] v.nodes[a].operands[b] == Some(op)) || (exists|k: int| 0 <= k < v.outputs.len() && (#[trigger] v.outputs[k]).0 == op),
    ensures
        !is_dead(v, op_root(op) as int),
        rank(v, op_root(op) as int) < rank(v, v.nodes.len() as int),
{
    if exists|a: int, b: int| 0 <= a < v.nodes.len() && 0 <= b < v.nodes[a].operands.len() && #[trigger] v.nodes[a].operands[b] == Some(op) {
        let (a, b) = choose|a: int, b: int| 0 <= a < v.nodes.len() && 0 <= b < v.nodes[a].operands.len() && #[trigger] v.nodes[a].operands[b] == Some(op);
        assert(v.nodes[a].operands[b] is Some);
        assert(used_by_slot(v, op_root(op) as int));
        assert(valid_operand(v, op));
    } else {
        let k = choose|k: int| 0 <= k < v.outputs.len() && (#[trigger] v.outputs[k]).0 == op;
        assert(drives_output(v, op_root(op) as int));
        assert(valid_operand(v, v.outputs[k].0));
    }
    lemma_rank_mono(v, op_root(op) as int, v.nodes.len() as int);
}

impl<I: Instantiable> Netlist<I> {
    /// For each node, whether some slot or output addresses it.
    #[verifier::spinoff_prover]
    fn referenced_flags(&self) -> (r: Vec<bool>)
        requires
            self.wf(),
        ensures
            r@.len() == self@.nodes.len(),
            forall|i: int| 0 <= i < r@.len() ==> #[trigger] r@[i] == (used_by_slot(self@, i) || drives_output(self@, i)),
    {
        let n = self.objects.len();
        let mut flags: Vec<bool> = Vec::new();
        let mut i: usize = 0;
        while i < n
            invariant
                n == self@.nodes.len(),
                i <= n,
                flags@.len() == i,
                forall|x: int| 0 <= x < i ==> !(#[trigger] flags@[x]),
            decreases n - i,
        {
            flags.push(false);
            i = i + 1;
        }
        let mut a: usize = 0;
        while a < n
            invariant
                self.wf(),
                n == self@.nodes.len(),
                a <= n,
                flags@.len() == n,
                forall|x: int| 0 <= x < n ==> #[trigger] flags@[x] == exists|c: int, b: int|
                    0 <= c < a && 0 <= b < self@.nodes[c].operands.len() && (#[trigger] self@.nodes[c].operands[b]) is Some
                        && op_root(self@.nodes[c].operands[b].unwrap()) == x,
            decreases n - a,
        {
            let m = self.n_operands(a);
            let mut b: usize = 0;
            while b < m
                invariant
                    self.wf(),
                    n == self@.nodes.len(),
                    a < n,
                    m == self@.nodes[a as int].operands.len(),
                    b <= m,
                    flags@.len() == n,
                    forall|x: int| 0 <= x < n ==> #[trigger] flags@[x] == exists|c: int, d: int|
                        0 <= d < self@.nodes[c].operands.len() && (#[trigger] self@.nodes[c].operands[d]) is Some
                            && op_root(self@.nodes[c].operands[d].unwrap()) == x && (0 <= c < a || (c == a && d < b)),
                decreases m - b,
            {
                match self.operand_at(a, b) {
                    Some(op) => {
                        proof {
                            assert(valid_operand(self@, op));
                        }
                        let ghost before = flags@;
                        flags.set(op.root(), true);
                        proof {
                            assert forall|x: int| 0 <= x < n implies #[trigger] flags@[x] == exists|c: int, d: int|
                                0 <= d < self@.nodes[c].operands.len() && (#[trigger] self@.nodes[c].operands[d]) is Some
                                    && op_root(self@.nodes[c].operands[d].unwrap()) == x && (0 <= c < a || (c == a && d < b + 1)) by {
                                if x == op_root(op) {
                                    assert(self@.nodes[a as int].operands[b as int] is Some);
                                } else {
                                    assert(flags@[x] == before[x]);
                                }
                            }
                        }
                    },
                    None => {},
                }
                b = b + 1;
            }
            proof {
                assert forall|x: int| 0 <= x < n implies #[trigger] flags@[x] == exists|c: int, b: int|
                    0 <= c < a + 1 && 0 <= b < self@.nodes[c].operands.len() && (#[trigger] self@.nodes[c].operands[b]) is Some
                        && op_root(self@.nodes[c].operands[b].unwrap()) == x by {
                    if flags@[x] {
                        let (c, d) = choose|c: int, d: int|
                            0 <= d < self@.nodes[c].operands.len() && (#[trigger] self@.nodes[c].operands[d]) is Some
                                && op_root(self@.nodes[c].operands[d].unwrap()) == x && (0 <= c < a || (c == a && d < m));
                        assert(0 <= c < a + 1 && 0 <= d < self@.nodes[c].operands.len());
                    }
                }
            }
            a = a + 1;
        }
        let mut k: usize = 0;
        while k < self.outputs.len()
            invariant
                self.wf(),
                n == self@.nodes.len(),
                k <= self@.outputs.len(),
                self.outputs@.len() == self@.outputs.len(),
                flags@.len() == n,
                forall|x: int| 0 <= x < n ==> #[trigger] flags@[x] == (used_by_slot(self@, x)
                    || exists|q: int| 0 <= q < k && op_root((#[trigger] self@.outputs[q]).0) == x),
            decreases self@.outputs.len() - k,
        {
            let op = self.outputs[k].0;
            proof {
                assert(op == self@.outputs[k as int].0);
                assert(valid_operand(self@, op));
            }
            let ghost before = flags@;
            flags.set(op.root(), true);
            proof {
                assert forall|x: int| 0 <= x < n implies #[trigger] flags@[x] == (used_by_slot(self@, x)
                    || exists|q: int| 0 <= q < k + 1 && op_root((#[trigger] self@.outputs[q]).0) == x) by {
                    if x == op_root(op) {
                    } else {
                        assert(flags@[x] == before[x]);
                        if exists|q: int| 0 <= q < k + 1 && op_root((#[trigger] self@.outputs[q]).0) == x {
                            let q = choose|q: int| 0 <= q < k + 1 && op_root((#[trigger] self@.outputs[q]).0) == x;
                            assert(q < k);
                        }
                    }
                }
            }
            k = k + 1;
        }
        flags
    }

    /// For each node, whether it is dead.
    fn dead_flags(&self) -> (r: Vec<bool>)
        requires
            self.wf(),
        ensures
            r@.len() == self@.nodes.len(),
            forall|i: int| 0 <= i < r@.len() ==> #[trigger] r@[i] == is_dead(self@, i),
    {
        let referenced = self.referenced_flags();
        let n = self.objects.len();
        let mut dead: Vec<bool> = Vec::new();
        let mut i: usize = 0;
        while i < n
            invariant
                self.wf(),
                n == self@.nodes.len(),
                referenced@.len() == n,
                forall|x: int| 0 <= x < n ==> #[trigger] referenced@[x] == (used_by_slot(self@, x) || drives_output(self@, x)),
                i <= n,
                dead@.len() == i,
                forall|x: int| 0 <= x < i ==> #[trigger] dead@[x] == is_dead(self@, x),
            decreases n - i,
        {
            let d = !self.is_input_node(i) && !referenced[i];
            dead.push(d);
            i = i + 1;
        }
        dead
    }
}

/// An operand moved by compaction addresses the same output of the same
/// (moved) node.
pub proof fn lemma_remap_valid<I: Instantiable>(old: NetlistView<I>, new: NetlistView<I>, op: Operand)
    requires
        view_wf(old),
        compacted(old, new),
        valid_operand(old, op),
        !is_dead(old, op_root(op) as int),
    ensures
        valid_operand(new, op_remap(op, rank(old, op_root(op) as int) as usize)),
        op_root(op_remap(op, rank(old, op_root(op) as int) as usize)) == rank(old, op_root(op) as int),
        nets_at(new, rank(old, op_root(op) as int) as int) == nets_at(old, op_root(op) as int),
{
    let r = op_root(op) as int;
    lemma_rank_mono(old, r, old.nodes.len() as int);
    lemma_rank_mono(old, r, r);
    assert(moved_node(old, r, new.nodes[rank(old, r) as int]));
}

/// Compaction keeps the structural invariant.
pub proof fn lemma_compacted_wf<I: Instantiable>(old: NetlistView<I>, new: NetlistView<I>)
    requires
        view_wf(old),
        compacted(old, new),
    ensures
        view_wf(new),
{
    assert forall|r: int| 0 <= r < new.nodes.len() implies node_wf(#[trigger] new.nodes[r]) by {
        lemma_rank_onto(old, old.nodes.len() as int, r);
        let i = choose|i: int| 0 <= i < old.nodes.len() && !is_dead(old, i) && #[trigger] rank(old, i) == r;
        assert(moved_node(old, i, new.nodes[rank(old, i) as int]));
        assert(node_wf(old.nodes[i]));
    }
    assert forall|r: int, j: int|
        0 <= r < new.nodes.len() && 0 <= j < new.nodes[r].operands.len()
            && #[trigger] new.nodes[r].operands[j] is Some implies valid_operand(new, new.nodes[r].operands[j].unwrap()) by {
        lemma_rank_onto(old, old.nodes.len() as int, r);
        let i = choose|i: int| 0 <= i < old.nodes.len() && !is_dead(old, i) && #[trigger] rank(old, i) == r;
        assert(moved_node(old, i, new.nodes[rank(old, i) as int]));
        let op = old.nodes[i].operands[j].unwrap();
        assert(old.nodes[i].operands[j] is Some);
        assert(old.nodes[i].operands[j] == Some(op));
        lemma_addressed_survives(old, op);
        lemma_remap_valid(old, new, op);
    }
    assert forall|k: int| 0 <= k < new.outputs.len() implies valid_operand(new, (#[trigger] new.outputs[k]).0) by {
        let op = old.outputs[k].0;
        assert(old.outputs[k].0 == op);
        lemma_addressed_survives(old, op);
        lemma_remap_valid(old, new, op);
    }
    assert forall|a: int, b: int| 0 <= a < b < new.outputs.len() implies (#[trigger] new.outputs[a]).0 != (#[trigger] new.outputs[b]).0 by {
        let x = old.outputs[a].0;
        let y = old.outputs[b].0;
        assert(old.outputs[a].0 == x);
        assert(old.outputs[b].0 == y);
        lemma_addressed_survives(old, x);
        lemma_addressed_survives(old, y);
        assert(x != y);
        if op_root(x) != op_root(y) {
            if op_root(x) < op_root(y) {
                lemma_rank_mono(old, op_root(x) as int, op_root(y) as int);
            } else {
                lemma_rank_mono(old, op_root(y) as int, op_root(x) as int);
            }
            lemma_rank_mono(old, op_root(x) as int, old.nodes.len() as int);
            lemma_rank_mono(old, op_root(y) as int, old.nodes.len() as int);
        }
    }
}

impl<I: Instantiable> Netlist<I> {
    /// One pass of dead-object elimination. A node is dead when it is not a
    /// principal input, no input slot is wired to any of its outputs, and it
    /// drives no top-level output. Dead nodes are dropped, the survivors are
    /// renumbered contiguously, keeping their relative order, and every operand
    /// and output is moved with its node. Returns whether anything changed;
    /// a change starts a new layout epoch, so earlier handles go stale.
    #[verifier::spinoff_prover]
    pub fn clean_once(&mut self) -> (r: Result<bool, NetlistError>)
        requires
            old(self).wf(),
        ensures
            final(self).wf(),
            has_dead(old(self)@) ==> r == Ok::<bool, NetlistError>(true) && compacted(old(self)@, final(self)@),
            !has_dead(old(self)@) ==> r == Ok::<bool, NetlistError>(false) && final(self)@ == old(self)@,
    {
        let ghost o = self@;
        let dead = self.dead_flags();
        let n = self.objects.len();
        let mut any = false;
        let mut i: usize = 0;
        while i < n
            invariant
                n == o.nodes.len(),
                dead@.len() == n,
                forall|x: int| 0 <= x < n ==> #[trigger] dead@[x] == is_dead(o, x),
                i <= n,
                any == exists|x: int| 0 <= x < i && #[trigger] is_dead(o, x),
            decreases n - i,
        {
            if dead[i] {
                any = true;
            }
            i = i + 1;
        }
        if !any {
            return Ok(false);
        }
        let mut ranks: Vec<usize> = Vec::new();
        ranks.push(0);
        let mut i: usize = 0;
        while i < n
            invariant
                n == o.nodes.len(),
                dead@.len() == n,
                forall|x: int| 0 <= x < n ==> #[trigger] dead@[x] == is_dead(o, x),
                i <= n,
                ranks@.len() == i + 1,
                forall|x: int| 0 <= x <= i ==> #[trigger] ranks@[x] == rank(o, x),
            decreases n - i,
        {
            proof {
                lemma_rank_mono(o, i as int, i as int);
            }
            let next = if dead[i] { ranks[i] } else { ranks[i] + 1 };
            ranks.push(next);
            i = i + 1;
        }
        proof {
            assert(self.objects@.len() == n);
        }
        let mut orig: Vec<OwnedObject<I>> = Vec::new();
        std::mem::swap(&mut self.objects, &mut orig);
        let ghost os = orig@;
        proof {
            assert forall|x: int| 0 <= x < n implies #[trigger] o.nodes[x] == os[x]@ by {}
        }
        let mut rev: Vec<OwnedObject<I>> = Vec::new();
        while orig.len() > 0
            invariant
                os.len() == n,
                orig@.len() + rev@.len() == n,
                orig@ == os.subrange(0, orig@.len() as int),
                forall|u: int| 0 <= u < rev@.len() ==> #[trigger] rev@[u] == os[n - 1 - u],
            decreases orig@.len(),
        {
            let ghost len = orig@.len();
            let x = orig.pop().unwrap();
            proof {
                assert(x == os[len - 1]);
                assert(orig@ =~= os.subrange(0, orig@.len() as int));
            }
            rev.push(x);
        }
        let mut objs: Vec<OwnedObject<I>> = Vec::new();
        let mut t: usize = 0;
        while t < n
            invariant
                view_wf(o),
                forall|x: int| 0 <= x < n ==> #[trigger] o.nodes[x] == os[x]@,
                forall|x: int| 0 <= x < n ==> (#[trigger] os[x]).index == x,
                n == o.nodes.len(),
                os.len() == n,
                dead@.len() == n,
                forall|x: int| 0 <= x < n ==> #[trigger] dead@[x] == is_dead(o, x),
                ranks@.len() == n + 1,
                forall|x: int| 0 <= x <= n ==> #[trigger] ranks@[x] == rank(o, x),
                t <= n,
                rev@.len() == n - t,
                forall|u: int| 0 <= u < rev@.len() ==> #[trigger] rev@[u] == os[n - 1 - u],
                objs@.len() == rank(o, t as int),
                forall|r: int| 0 <= r < objs@.len() ==> (#[trigger] objs@[r]).index == r,
                forall|x: int| #![trigger is_dead(o, x)] 0 <= x < t && !is_dead(o, x) ==> rank(o, x) < objs@.len()
                    && moved_node(o, x, objs@[rank(o, x) as int]@),
            decreases n - t,
        {
            let ghost len = rev@.len();
            let ghost rev_before = rev@;
            let mut obj = rev.pop().unwrap();
            proof {
                assert(obj == os[t as int]);
                assert(rev@.len() == len - 1);
                assert forall|u: int| 0 <= u < rev@.len() implies #[trigger] rev@[u] == os[n - 1 - u] by {
                    assert(rev@[u] == rev_before[u]);
                }
                lemma_rank_mono(o, t as int, t as int);
            }
            if !dead[t] {
                let m = obj.operands.len();
                let mut ops: Vec<Option<Operand>> = Vec::new();
                let mut j: usize = 0;
                while j < m
                    invariant
                        view_wf(o),
                        t < n,
                        n == o.nodes.len(),
                        o.nodes[t as int] == obj@,
                        m == obj.operands@.len(),
                        ranks@.len() == n + 1,
                        forall|x: int| 0 <= x <= n ==> #[trigger] ranks@[x] == rank(o, x),
                        j <= m,
                        ops@.len() == j,
                        forall|q: int| 0 <= q < j ==> #[trigger] ops@[q] == remap_slot(o, obj.operands@[q]),
                    decreases m - j,
                {
                    let s = obj.operands[j];
                    match s {
                        Some(op) => {
                            proof {
                                assert(o.nodes[t as int].operands[j as int] is Some);
                                assert(valid_operand(o, op));
                            }
                            ops.push(Some(op.remap(ranks[op.root()])));
                        },
                        None => {
                            ops.push(None);
                        },
                    }
                    j = j + 1;
                }
                let ghost before = objs@;
                obj.operands = ops;
                obj.index = objs.len();
                objs.push(obj);
                proof {
                    assert(moved_node(o, t as int, objs@[rank(o, t as int) as int]@));
                    assert forall|x: int| #![trigger is_dead(o, x)] 0 <= x < t + 1 && !is_dead(o, x) implies rank(o, x) < objs@.len()
                        && moved_node(o, x, objs@[rank(o, x) as int]@) by {
                        if x < t {
                            lemma_rank_mono(o, x, t as int);
                            assert(moved_node(o, x, before[rank(o, x) as int]@));
                            assert(objs@[rank(o, x) as int] == before[rank(o, x) as int]);
                        }
                    }
                }
            } else {
                proof {
                    assert forall|x: int| #![trigger is_dead(o, x)] 0 <= x < t + 1 && !is_dead(o, x) implies rank(o, x) < objs@.len()
                        && moved_node(o, x, objs@[rank(o, x) as int]@) by {
                        lemma_rank_mono(o, x, t as int);
                        if x == t {
                            assert(is_dead(o, x));
                        }
                    }
                }
            }
            t = t + 1;
        }
        self.objects = objs;
        let mut outs: Vec<(Operand, Net)> = Vec::new();
        let mut k: usize = 0;
        while k < self.outputs.len()
            invariant
                view_wf(o),
                n == o.nodes.len(),
                self.outputs@.map_values(|p: (Operand, Net)| (p.0, p.1@)) == o.outputs,
                ranks@.len() == n + 1,
                forall|x: int| 0 <= x <= n ==> #[trigger] ranks@[x] == rank(o, x),
                k <= o.outputs.len(),
                outs@.len() == k,
                forall|q: int| 0 <= q < k ==> (#[trigger] outs@[q]).0 == op_remap(o.outputs[q].0, rank(o, op_root(o.outputs[q].0) as int) as usize)
                    && outs@[q].1@ == o.outputs[q].1,
            decreases o.outputs.len() - k,
        {
            let op = self.outputs[k].0;
            proof {
                assert(op == o.outputs[k as int].0);
                assert(valid_operand(o, op));
            }
            outs.push((op.remap(ranks[op.root()]), self.outputs[k].1.clone()));
            k = k + 1;
        }
        self.outputs = outs;
        self.epoch = if self.epoch == u64::MAX { 0 } else { self.epoch + 1 };
        proof {
            let v = self@;
            assert(v.outputs =~= o.outputs.map_values(|p: (Operand, NetView)| (op_remap(p.0, rank(o, op_root(p.0) as int) as usize), p.1)));
            assert forall|x: int| 0 <= x < o.nodes.len() && !is_dead(o, x) implies rank(o, x) < v.nodes.len()
                && moved_node(o, x, #[trigger] v.nodes[rank(o, x) as int]) by {
                assert(!is_dead(o, x));
                assert(v.nodes[rank(o, x) as int] == self.objects@[rank(o, x) as int]@);
            }
            assert(compacted(o, v));
            lemma_compacted_wf(o, v);
        }
        Ok(true)
    }

    /// Removes dead nodes until none is left (a dead node can make its
    /// drivers dead in turn): repeats [Netlist::clean_once] to a fixed
    /// point. Returns whether anything changed.
    #[verifier::spinoff_prover]
    pub fn clean(&mut self) -> (r: Result<bool, NetlistError>)
        requires
            old(self).wf(),
        ensures
            final(self).wf(),
            !has_dead(final(self)@),
            exists|c: Seq<NetlistView<I>>| #[trigger] compaction_chain(c) && c.len() >= 1 && c[0] == old(self)@ && c.last() == final(self)@,
            r is Ok,
            r == Ok::<bool, NetlistError>(false) <==> final(self)@ == old(self)@,
            r == Ok::<bool, NetlistError>(false) <==> !has_dead(old(self)@),
            final(self)@.name == old(self)@.name,
    {
        let mut changed_any = false;
        let ghost mut chain: Seq<NetlistView<I>> = seq![self@];
        loop
            invariant
                self.wf(),
                self@.name == old(self)@.name,
                compaction_chain(chain),
                chain.len() >= 1,
                chain[0] == old(self)@,
                chain.last() == self@,
                !changed_any ==> self@ == old(self)@,
                changed_any ==> has_dead(old(self)@) && self@.nodes.len() < old(self)@.nodes.len(),
            decreases self@.nodes.len(),
        {
            let ghost before = self@;
            let changed = self.clean_once();
            match changed {
                Ok(true) => {
                    proof {
                        let i = choose|i: int| 0 <= i < before.nodes.len() && is_dead(before, i);
                        lemma_rank_below(before, i);
                        if !changed_any {
                            assert(has_dead(old(self)@));
                        }
                        assert(self@.nodes.len() < before.nodes.len());
                        assert(has_dead(before));
                        assert(compacted(before, self@));
                        let c2 = chain.push(self@);
                        assert forall|q: int| 0 <= q < c2.len() - 1 implies has_dead(#[trigger] c2[q]) && compacted(c2[q], c2[q + 1]) by {
                            if q < chain.len() - 1 {
                                assert(c2[q] == chain[q] && c2[q + 1] == chain[q + 1]);
                            }
                        }
                        chain = c2;
                    }
                    changed_any = true;
                },
                _ => {
                    proof {
                        assert(compaction_chain(chain));
                    }
                    return Ok(changed_any);
                },
            }
        }
    }
}

/// Each netlist of `c` has a dead node and compacts to the next one.
pub open spec fn compaction_chain<I>(c: Seq<NetlistView<I>>) -> bool {
    forall|q: int| 0 <= q < c.len() - 1 ==> has_dead(#[trigger] c[q]) && compacted(c[q], c[q + 1])
}

/// Dropping a dead node shrinks the store.
pub proof fn lemma_rank_below<I>(v: NetlistView<I>, i: int)
    requires
        0 <= i < v.nodes.len(),
        is_dead(v, i),
    ensures
        rank(v, v.nodes.len() as int) < v.nodes.len(),
{
    lemma_rank_mono(v, i, i);
    lemma_rank_mono(v, i + 1, v.nodes.len() as int);
    assert(rank(v, i + 1) == rank(v, i));
    let n = v.nodes.len() as int;
    lemma_rank_gap(v, i + 1, n);
}

/// Ranks grow by at most one per index.
pub proof fn lemma_rank_gap<I>(v: NetlistView<I>, i: int, j: int)
    requires
        0 <= i <= j,
    ensures
        rank(v, j) <= rank(v, i) + (j - i),
    decreases j - i,
{
    if i < j {
        lemma_rank_gap(v, i, j - 1);
    }
}

/// What [Netlist::verify] returns on `v`: the first violated condition.
pub open spec fn verify_result<I>(v: NetlistView<I>) -> Result<(), NetlistError> {
    if v.outputs.len() == 0 {
        Err(NetlistError::NoOutputs)
    } else if !nets_unique(v) {
        Err(NetlistError::NonUniqueNets)
    } else if !insts_unique(v) {
        Err(NetlistError::NonUniqueInstances)
    } else {
        Ok(())
    }
}

/// The identifiers of the nets of the first `n` nodes, in store and output order.
pub open spec fn net_ids<I>(v: NetlistView<I>, n: int) -> Seq<IdentifierView>
    decreases n,
{
    if n <= 0 {
        Seq::empty()
    } else {
        net_ids(v, n - 1) + nets_at(v, n - 1).map_values(|x: Net| x@.0)
    }
}

/// The instance names of the first `n` nodes, in store order.
pub open spec fn inst_names<I>(v: NetlistView<I>, n: int) -> Seq<IdentifierView>
    decreases n,
{
    if n <= 0 {
        Seq::empty()
    } else {
        match v.nodes[n - 1].object {
            Object::Instance(_, name, _) => inst_names(v, n - 1).push(name@),
            Object::Input(_) => inst_names(v, n - 1),
        }
    }
}

/// Every net identifier of the netlist is distinct.
pub open spec fn nets_unique<I>(v: NetlistView<I>) -> bool {
    net_ids(v, v.nodes.len() as int).no_duplicates()
}

/// Every instance name of the netlist is distinct.
pub open spec fn insts_unique<I>(v: NetlistView<I>) -> bool {
    inst_names(v, v.nodes.len() as int).no_duplicates()
}

/// The netlist passes [Netlist::verify]: it has outputs, and its net
/// identifiers and instance names are unique.
pub open spec fn well_formed<I>(v: NetlistView<I>) -> bool {
    v.outputs.len() > 0 && nets_unique(v) && insts_unique(v)
}

/// The identifiers hold no two equal ones.
fn distinct_ids(ids: &Vec<Identifier>) -> (r: bool)
    ensures
        r == ids@.map_values(|x: Identifier| x@).no_duplicates(),
{
    let ghost s = ids@.map_values(|x: Identifier| x@);
    let mut a: usize = 0;
    while a < ids.len()
        invariant
            s == ids@.map_values(|x: Identifier| x@),
            a <= ids@.len(),
            forall|x: int, y: int| 0 <= x < a && 0 <= y < ids@.len() && x != y ==> s[x] != s[y],
        decreases ids@.len() - a,
    {
        let mut b: usize = 0;
        while b < ids.len()
            invariant
                s == ids@.map_values(|x: Identifier| x@),
                a < ids@.len(),
                b <= ids@.len(),
                forall|x: int, y: int| 0 <= x < a && 0 <= y < ids@.len() && x != y ==> s[x] != s[y],
                forall|y: int| 0 <= y < b && a != y ==> s[a as int] != s[y],
            decreases ids@.len() - b,
        {
            if a != b && ids[a] == ids[b] {
                proof {
                    assert(s[a as int] == s[b as int]);
                }
                return false;
            }
            b = b + 1;
        }
        a = a + 1;
    }
    true
}

impl<I: Instantiable> Netlist<I> {
    /// Copies of the identifiers of all nets, in store and output order.
    fn all_net_ids(&self) -> (r: Vec<Identifier>)
        ensures
            r@.map_values(|x: Identifier| x@) == net_ids(self@, self@.nodes.len() as int),
    {
        let n = self.objects.len();
        let mut ids: Vec<Identifier> = Vec::new();
        let mut i: usize = 0;
        proof {
            assert(ids@.map_values(|x: Identifier| x@) =~= net_ids(self@, 0));
        }
        while i < n
            invariant
                n == self@.nodes.len(),
                i <= n,
                ids@.map_values(|x: Identifier| x@) == net_ids(self@, i as int),
            decreases n - i,
        {
            let m = self.n_nets(i);
            let mut p: usize = 0;
            let ghost base = ids@.map_values(|x: Identifier| x@);
            while p < m
                invariant
                    n == self@.nodes.len(),
                    i < n,
                    m == nets_at(self@, i as int).len(),
                    p <= m,
                    base == net_ids(self@, i as int),
                    ids@.map_values(|x: Identifier| x@) == base + nets_at(self@, i as int).subrange(0, p as int).map_values(|x: Net| x@.0),
                decreases m - p,
            {
                let id = self.net_at(i, p).get_identifier().clone();
                let ghost before = ids@;
                ids.push(id);
                proof {
                    let ns = nets_at(self@, i as int);
                    assert(ns.subrange(0, p + 1) =~= ns.subrange(0, p as int).push(ns[p as int]));
                    assert(ns.subrange(0, p + 1).map_values(|x: Net| x@.0) =~= ns.subrange(0, p as int).map_values(|x: Net| x@.0).push(ns[p as int]@.0));
                    assert(ids@.map_values(|x: Identifier| x@) =~= before.map_values(|x: Identifier| x@).push(id@));
                    assert(ids@.map_values(|x: Identifier| x@) =~= base + nets_at(self@, i as int).subrange(0, p + 1).map_values(|x: Net| x@.0));
                }
                p = p + 1;
            }
            proof {
                assert(nets_at(self@, i as int).subrange(0, m as int) =~= nets_at(self@, i as int));
            }
            i = i + 1;
        }
        ids
    }

    /// Copies of all instance names, in store order.
    fn all_inst_names(&self) -> (r: Vec<Identifier>)
        ensures
            r@.map_values(|x: Identifier| x@) == inst_names(self@, self@.nodes.len() as int),
    {
        let n = self.objects.len();
        let mut names: Vec<Identifier> = Vec::new();
        let mut i: usize = 0;
        proof {
            assert(names@.map_values(|x: Identifier| x@) =~= inst_names(self@, 0));
        }
        while i < n
            invariant
                n == self@.nodes.len(),
                i <= n,
                names@.map_values(|x: Identifier| x@) == inst_names(self@, i as int),
            decreases n - i,
        {
            match self.object_at(i) {
                Object::Instance(_, name, _) => {
                    names.push(name.clone());
                    proof {
                        assert(names@.map_values(|x: Identifier| x@) =~= inst_names(self@, i + 1));
                    }
                },
                Object::Input(_) => {},
            }
            i = i + 1;
        }
        names
    }

    /// Checks that the netlist is well-formed: it has at least one output,
    /// every net identifier is unique, and every instance name is unique.
    /// Returns the first violated condition, in that order.
    pub fn verify(&self) -> (r: Result<(), NetlistError>)
        ensures
            r == verify_result(self@),
            r is Ok <==> well_formed(self@),
            r == Err::<(), NetlistError>(NetlistError::NoOutputs) <==> self@.outputs.len() == 0,
            r == Err::<(), NetlistError>(NetlistError::NonUniqueNets) <==> self@.outputs.len() > 0 && !nets_unique(self@),
            r == Err::<(), NetlistError>(NetlistError::NonUniqueInstances) <==> self@.outputs.len() > 0 && nets_unique(self@) && !insts_unique(self@),
    {
        proof {
            assert(self@.outputs.len() == self.outputs@.len());
        }
        if self.outputs.len() == 0 {
            return Err(NetlistError::NoOutputs);
        }
        if !distinct_ids(&self.all_net_ids()) {
            return Err(NetlistError::NonUniqueNets);
        }
        if !distinct_ids(&self.all_inst_names()) {
            return Err(NetlistError::NonUniqueInstances);
        }
        Ok(())
    }
}

/// The object at node `i` is an instance; its instance type.
pub open spec fn inst_at<I>(v: NetlistView<I>, i: int) -> I
    recommends
        !is_input_at(v, i),
{
    match v.nodes[i].object {
        Object::Instance(_, _, inst) => inst,
        Object::Input(_) => arbitrary(),
    }
}

impl NetRef {
    /// Returns the net driven by this node, which must drive exactly one.
    pub fn as_net<'a, I: Instantiable>(&self, netlist: &'a Netlist<I>) -> (r: &'a Net)
        requires
            valid_ref(netlist@, self@),
            nets_at(netlist@, self@.0 as int).len() == 1,
        ensures
            *r == nets_at(netlist@, self@.0 as int)[0],
    {
        netlist.net_at(self.index, 0)
    }

    /// Returns the net driven by this node at output position `idx`.
    pub fn get_net<'a, I: Instantiable>(&self, netlist: &'a Netlist<I>, idx: usize) -> (r: &'a Net)
        requires
            valid_ref(netlist@, self@),
            idx < nets_at(netlist@, self@.0 as int).len(),
        ensures
            *r == nets_at(netlist@, self@.0 as int)[idx as int],
    {
        netlist.net_at(self.index, idx)
    }

    /// Returns a handle to output `idx` of this node.
    pub fn get_output<I: Instantiable>(&self, netlist: &Netlist<I>, idx: usize) -> (r: DrivenNet)
        requires
            valid_ref(netlist@, self@),
            idx < nets_at(netlist@, self@.0 as int).len(),
        ensures
            r@ == (self@.0, idx as nat, self@.1),
            valid_driven(netlist@, r@),
    {
        DrivenNet { pos: idx, netref: *self }
    }

    /// Returns a handle to input slot `idx` of this instance.
    pub fn get_input<I: Instantiable>(&self, netlist: &Netlist<I>, idx: usize) -> (r: InputPort)
        requires
            valid_ref(netlist@, self@),
            !is_input_at(netlist@, self@.0 as int),
            idx < netlist@.nodes[self@.0 as int].operands.len(),
        ensures
            r@ == (self@.0, idx as nat, self@.1),
            valid_input(netlist@, r@),
    {
        InputPort { pos: idx, netref: *self }
    }

    /// Returns a copy of the identifier of the net of this single-output node.
    pub fn get_identifier<I: Instantiable>(&self, netlist: &Netlist<I>) -> (r: Identifier)
        requires
            valid_ref(netlist@, self@),
            nets_at(netlist@, self@.0 as int).len() == 1,
        ensures
            r@ == nets_at(netlist@, self@.0 as int)[0]@.0,
    {
        netlist.net_at(self.index, 0).get_identifier().clone()
    }

    /// Renames the net of this single-output node.
    pub fn set_identifier<I: Instantiable>(&self, netlist: &mut Netlist<I>, identifier: Identifier)
        requires
            old(netlist).wf(),
            valid_ref(old(netlist)@, self@),
            nets_at(old(netlist)@, self@.0 as int).len() == 1,
        ensures
            final(netlist).wf(),
            only_object_changed(old(netlist)@, final(netlist)@, self@.0 as int),
            net_renamed(old(netlist)@.nodes[self@.0 as int].object, final(netlist)@.nodes[self@.0 as int].object, 0, identifier@),
    {
        netlist.rename_net(self.index, 0, identifier);
    }

    /// Returns `true` if this node is a principal input.
    pub fn is_an_input<I: Instantiable>(&self, netlist: &Netlist<I>) -> (r: bool)
        requires
            valid_ref(netlist@, self@),
        ensures
            r == is_input_at(netlist@, self@.0 as int),
    {
        netlist.is_input_node(self.index)
    }

    /// Returns the object stored at this node.
    pub fn get_obj<'a, I: Instantiable>(&self, netlist: &'a Netlist<I>) -> (r: &'a Object<I>)
        requires
            valid_ref(netlist@, self@),
        ensures
            *r == netlist@.nodes[self@.0 as int].object,
    {
        netlist.object_at(self.index)
    }

    /// Returns the instance type, if this node is an instance.
    pub fn get_instance_type<'a, I: Instantiable>(&self, netlist: &'a Netlist<I>) -> (r: Option<&'a I>)
        requires
            valid_ref(netlist@, self@),
        ensures
            is_input_at(netlist@, self@.0 as int) ==> r is None,
            !is_input_at(netlist@, self@.0 as int) ==> r == Some(&inst_at(netlist@, self@.0 as int)),
    {
        netlist.object_at(self.index).get_instance_type()
    }

    /// Returns a copy of the instance name, if this node is an instance.
    pub fn get_instance_name<I: Instantiable>(&self, netlist: &Netlist<I>) -> (r: Option<Identifier>)
        requires
            valid_ref(netlist@, self@),
        ensures
            match netlist@.nodes[self@.0 as int].object {
                Object::Instance(_, name, _) => r is Some && r.unwrap()@ == name@,
                Object::Input(_) => r is None,
            },
    {
        match netlist.object_at(self.index) {
            Object::Instance(_, name, _) => Some(name.clone()),
            Object::Input(_) => None,
        }
    }

    /// Returns `true` if this node drives more than one net.
    pub fn is_multi_output<I: Instantiable>(&self, netlist: &Netlist<I>) -> (r: bool)
        requires
            valid_ref(netlist@, self@),
        ensures
            r == (nets_at(netlist@, self@.0 as int).len() > 1),
    {
        netlist.n_nets(self.index) > 1
    }

    /// Returns the number of input ports of this node: none for a principal input.
    pub fn get_num_input_ports<I: Instantiable>(&self, netlist: &Netlist<I>) -> (r: usize)
        requires
            netlist.wf(),
            valid_ref(netlist@, self@),
        ensures
            r == netlist@.nodes[self@.0 as int].operands.len(),
    {
        proof {
            assert(node_wf(netlist@.nodes[self@.0 as int]));
        }
        netlist.n_operands(self.index)
    }

    /// Returns `true` if every input slot of this node is connected.
    pub fn is_fully_connected<I: Instantiable>(&self, netlist: &Netlist<I>) -> (r: bool)
        requires
            valid_ref(netlist@, self@),
        ensures
            r == forall|j: int| 0 <= j < netlist@.nodes[self@.0 as int].operands.len()
                ==> #[trigger] netlist@.nodes[self@.0 as int].operands[j] is Some,
    {
        let m = netlist.n_operands(self.index);
        let mut j: usize = 0;
        while j < m
            invariant
                valid_ref(netlist@, self@),
                m == netlist@.nodes[self@.0 as int].operands.len(),
                j <= m,
                forall|q: int| 0 <= q < j ==> #[trigger] netlist@.nodes[self@.0 as int].operands[q] is Some,
            decreases m - j,
        {
            if netlist.operand_at(self.index, j).is_none() {
                return false;
            }
            j = j + 1;
        }
        true
    }

    /// Returns the node that drives input `index`, if connected.
    pub fn get_driver<I: Instantiable>(&self, netlist: &Netlist<I>, index: usize) -> (r: Option<NetRef>)
        requires
            netlist.wf(),
            valid_ref(netlist@, self@),
            index < netlist@.nodes[self@.0 as int].operands.len(),
        ensures
            match netlist@.nodes[self@.0 as int].operands[index as int] {
                Some(op) => r is Some && r.unwrap()@ == (op_root(op), netlist@.epoch),
                None => r is None,
            },
    {
        netlist.get_driver(*self, index)
    }

    /// Returns a copy of the net that drives input `index`, if connected.
    pub fn get_driver_net<I: Instantiable>(&self, netlist: &Netlist<I>, index: usize) -> (r: Option<Net>)
        requires
            netlist.wf(),
            valid_ref(netlist@, self@),
            index < netlist@.nodes[self@.0 as int].operands.len(),
        ensures
            match netlist@.nodes[self@.0 as int].operands[index as int] {
                Some(op) => r is Some && r.unwrap()@ == nets_at(netlist@, op_root(op) as int)[op_secondary(op) as int]@,
                None => r is None,
            },
    {
        match netlist.operand_at(self.index, index) {
            Some(op) => {
                proof {
                    assert(valid_operand(netlist@, op));
                }
                Some(netlist.net_at(op.root(), op.secondary()).clone())
            },
            None => None,
        }
    }

    /// Returns the drivers of each input slot, in slot order.
    pub fn drivers<I: Instantiable>(&self, netlist: &Netlist<I>) -> (r: Vec<Option<NetRef>>)
        requires
            netlist.wf(),
            valid_ref(netlist@, self@),
        ensures
            r@.len() == netlist@.nodes[self@.0 as int].operands.len(),
            forall|j: int| 0 <= j < r@.len() ==> match netlist@.nodes[self@.0 as int].operands[j] {
                Some(op) => (#[trigger] r@[j]) is Some && r@[j].unwrap()@ == (op_root(op), netlist@.epoch),
                None => r@[j] is None,
            },
    {
        let m = netlist.n_operands(self.index);
        let mut r: Vec<Option<NetRef>> = Vec::new();
        let mut j: usize = 0;
        while j < m
            invariant
                netlist.wf(),
                valid_ref(netlist@, self@),
                m == netlist@.nodes[self@.0 as int].operands.len(),
                j <= m,
                r@.len() == j,
                forall|q: int| 0 <= q < j ==> match netlist@.nodes[self@.0 as int].operands[q] {
                    Some(op) => (#[trigger] r@[q]) is Some && r@[q].unwrap()@ == (op_root(op), netlist@.epoch),
                    None => r@[q] is None,
                },
            decreases m - j,
        {
            r.push(netlist.get_driver(*self, j));
            j = j + 1;
        }
        r
    }

    /// Returns copies of the nets that drive each input slot, in slot order.
    pub fn driver_nets<I: Instantiable>(&self, netlist: &Netlist<I>) -> (r: Vec<Option<Net>>)
        requires
            netlist.wf(),
            valid_ref(netlist@, self@),
        ensures
            r@.len() == netlist@.nodes[self@.0 as int].operands.len(),
            forall|j: int| 0 <= j < r@.len() ==> match netlist@.nodes[self@.0 as int].operands[j] {
                Some(op) => (#[trigger] r@[j]) is Some && r@[j].unwrap()@ == nets_at(netlist@, op_root(op) as int)[op_secondary(op) as int]@,
                None => r@[j] is None,
            },
    {
        let m = netlist.n_operands(self.index);
        let mut r: Vec<Option<Net>> = Vec::new();
        let mut j: usize = 0;
        while j < m
            invariant
                netlist.wf(),
                valid_ref(netlist@, self@),
                m == netlist@.nodes[self@.0 as int].operands.len(),
                j <= m,
                r@.len() == j,
                forall|q: int| 0 <= q < j ==> match netlist@.nodes[self@.0 as int].operands[q] {
                    Some(op) => (#[trigger] r@[q]) is Some && r@[q].unwrap()@ == nets_at(netlist@, op_root(op) as int)[op_secondary(op) as int]@,
                    None => r@[q] is None,
                },
            decreases m - j,
        {
            r.push(self.get_driver_net(netlist, j));
            j = j + 1;
        }
        r
    }

    /// Returns copies of the nets driven by this node, in output order.
    pub fn nets<I: Instantiable>(&self, netlist: &Netlist<I>) -> (r: Vec<Net>)
        requires
            valid_ref(netlist@, self@),
        ensures
            r@.len() == nets_at(netlist@, self@.0 as int).len(),
            forall|p: int| 0 <= p < r@.len() ==> (#[trigger] r@[p])@ == nets_at(netlist@, self@.0 as int)[p]@,
    {
        netlist.object_at(self.index).get_nets()
    }

    /// Returns handles to the input slots of this node, in slot order.
    pub fn inputs<I: Instantiable>(&self, netlist: &Netlist<I>) -> (r: Vec<InputPort>)
        requires
            valid_ref(netlist@, self@),
        ensures
            r@.len() == netlist@.nodes[self@.0 as int].operands.len(),
            forall|j: int| 0 <= j < r@.len() ==> (#[trigger] r@[j])@ == (self@.0, j as nat, self@.1),
    {
        let m = netlist.n_operands(self.index);
        let mut r: Vec<InputPort> = Vec::new();
        let mut j: usize = 0;
        while j < m
            invariant
                j <= m,
                r@.len() == j,
                forall|q: int| 0 <= q < j ==> (#[trigger] r@[q])@ == (self@.0, q as nat, self@.1),
            decreases m - j,
        {
            r.push(InputPort { pos: j, netref: *self });
            j = j + 1;
        }
        r
    }

    /// Returns handles to the outputs of this node, in output order.
    pub fn outputs<I: Instantiable>(&self, netlist: &Netlist<I>) -> (r: Vec<DrivenNet>)
        requires
            valid_ref(netlist@, self@),
        ensures
            r@.len() == nets_at(netlist@, self@.0 as int).len(),
            forall|p: int| 0 <= p < r@.len() ==> (#[trigger] r@[p])@ == (self@.0, p as nat, self@.1),
    {
        let m = netlist.n_nets(self.index);
        let mut r: Vec<DrivenNet> = Vec::new();
        let mut p: usize = 0;
        while p < m
            invariant
                p <= m,
                r@.len() == p,
                forall|q: int| 0 <= q < p ==> (#[trigger] r@[q])@ == (self@.0, q as nat, self@.1),
            decreases m - p,
        {
            r.push(DrivenNet { pos: p, netref: *self });
            p = p + 1;
        }
        r
    }

    /// The first output position at which this node drives a net equal to `net`.
    fn position_of<I: Instantiable>(&self, netlist: &Netlist<I>, net: &Net) -> (r: Option<usize>)
        requires
            valid_ref(netlist@, self@),
        ensures
            match r {
                Some(p) => p < nets_at(netlist@, self@.0 as int).len() && nets_at(netlist@, self@.0 as int)[p as int]@ == net@
                    && forall|q: int| 0 <= q < p ==> (#[trigger] nets_at(netlist@, self@.0 as int)[q])@ != net@,
                None => forall|q: int| 0 <= q < nets_at(netlist@, self@.0 as int).len() ==> (#[trigger] nets_at(netlist@, self@.0 as int)[q])@ != net@,
            },
    {
        let m = netlist.n_nets(self.index);
        let mut p: usize = 0;
        while p < m
            invariant
                valid_ref(netlist@, self@),
                m == nets_at(netlist@, self@.0 as int).len(),
                p <= m,
                forall|q: int| 0 <= q < p ==> (#[trigger] nets_at(netlist@, self@.0 as int)[q])@ != net@,
            decreases m - p,
        {
            if *netlist.net_at(self.index, p) == *net {
                return Some(p);
            }
            p = p + 1;
        }
        None
    }

    /// Returns `true` if this node drives a net equal to `net`.
    pub fn drives_net<I: Instantiable>(&self, netlist: &Netlist<I>, net: &Net) -> (r: bool)
        requires
            valid_ref(netlist@, self@),
        ensures
            r == exists|q: int| 0 <= q < nets_at(netlist@, self@.0 as int).len() && (#[trigger] nets_at(netlist@, self@.0 as int)[q])@ == net@,
    {
        self.position_of(netlist, net).is_some()
    }

    /// Returns `true` if an output of this node drives a top-level output.
    pub fn drives_an_top_output<I: Instantiable>(&self, netlist: &Netlist<I>) -> (r: bool)
        requires
            netlist.wf(),
        ensures
            r == drives_output(netlist@, self@.0 as int),
    {
        netlist.drives_an_output(*self)
    }

    /// Exposes the net of this single-output node as a top-level output under
    /// its own name. Fails, changing nothing, for a principal input.
    pub fn expose_as_output<I: Instantiable>(self, netlist: &mut Netlist<I>) -> (r: Result<Self, NetlistError>)
        requires
            old(netlist).wf(),
            valid_ref(old(netlist)@, self@),
            nets_at(old(netlist)@, self@.0 as int).len() == 1,
        ensures
            final(netlist).wf(),
            is_input_at(old(netlist)@, self@.0 as int) ==> r == Err::<NetRef, NetlistError>(NetlistError::InputAsOutput)
                && final(netlist)@ == old(netlist)@,
            !is_input_at(old(netlist)@, self@.0 as int) ==> r == Ok::<NetRef, NetlistError>(self)
                && final(netlist)@ == (NetlistView {
                outputs: outputs_insert(old(netlist)@.outputs, Operand::DirectIndex(self@.0 as usize), nets_at(old(netlist)@, self@.0 as int)[0]@),
                ..old(netlist)@
            }),
    {
        match netlist.expose_net(DrivenNet { pos: 0, netref: self }) {
            Ok(_) => Ok(self),
            Err(e) => Err(e),
        }
    }

    /// Exposes the net of this single-output node as a top-level output bound
    /// to a net named `name`.
    pub fn expose_with_name<I: Instantiable>(self, netlist: &mut Netlist<I>, name: Identifier) -> (r: Self)
        requires
            old(netlist).wf(),
            valid_ref(old(netlist)@, self@),
            nets_at(old(netlist)@, self@.0 as int).len() == 1,
        ensures
            final(netlist).wf(),
            r == self,
            final(netlist)@ == (NetlistView {
                outputs: outputs_insert(
                    old(netlist)@.outputs,
                    Operand::DirectIndex(self@.0 as usize),
                    (name@, nets_at(old(netlist)@, self@.0 as int)[0]@.1),
                ),
                ..old(netlist)@
            }),
    {
        netlist.expose_net_with_name(DrivenNet { pos: 0, netref: self }, name);
        self
    }

    /// Exposes the net equal to `net` that this node drives as a top-level
    /// output under its own name. Fails, changing nothing, when this node
    /// drives no such net, or when it is a principal input.
    pub fn expose_net<I: Instantiable>(&self, netlist: &mut Netlist<I>, net: &Net) -> (r: Result<(), NetlistError>)
        requires
            old(netlist).wf(),
            valid_ref(old(netlist)@, self@),
        ensures
            final(netlist).wf(),
            !(exists|q: int| 0 <= q < nets_at(old(netlist)@, self@.0 as int).len() && (#[trigger] nets_at(old(netlist)@, self@.0 as int)[q])@ == net@)
                ==> r == Err::<(), NetlistError>(NetlistError::NetNotFound) && final(netlist)@ == old(netlist)@,
            (exists|q: int| 0 <= q < nets_at(old(netlist)@, self@.0 as int).len() && (#[trigger] nets_at(old(netlist)@, self@.0 as int)[q])@ == net@)
                && is_input_at(old(netlist)@, self@.0 as int)
                ==> r == Err::<(), NetlistError>(NetlistError::InputAsOutput) && final(netlist)@ == old(netlist)@,
            r is Ok ==> !is_input_at(old(netlist)@, self@.0 as int) && exists|q: int| 0 <= q < nets_at(old(netlist)@, self@.0 as int).len()
                && (#[trigger] nets_at(old(netlist)@, self@.0 as int)[q])@ == net@
                && final(netlist)@ == (NetlistView {
                    outputs: outputs_insert(old(netlist)@.outputs, driven_operand(old(netlist)@, (self@.0, q as nat, self@.1)), net@),
                    ..old(netlist)@
                }),
            !is_input_at(old(netlist)@, self@.0 as int) && (exists|q: int| 0 <= q < nets_at(old(netlist)@, self@.0 as int).len() && (#[trigger] nets_at(old(netlist)@, self@.0 as int)[q])@ == net@)
                ==> r is Ok,
    {
        match self.position_of(netlist, net) {
            Some(p) => {
                match netlist.expose_net(DrivenNet { pos: p, netref: *self }) {
                    Ok(_) => Ok(()),
                    Err(e) => Err(e),
                }
            },
            None => Err(NetlistError::NetNotFound),
        }
    }

    /// Unlinks this node from the rest of the netlist; see [Netlist::delete_net_uses].
    pub fn delete_uses<I: Instantiable + Clone>(self, netlist: &mut Netlist<I>) -> (r: Result<Object<I>, NetlistError>)
        requires
            old(netlist).wf(),
            valid_ref(old(netlist)@, self@),
        ensures
            final(netlist).wf(),
            slots_rewritten(old(netlist)@, final(netlist)@, self@.0, None),
            final(netlist)@.outputs == old(netlist)@.outputs.filter(not_rooted_at(self@.0)),
            final(netlist)@.name == old(netlist)@.name,
            final(netlist)@.epoch == old(netlist)@.epoch,
            r is Ok && object_copy(r.unwrap(), old(netlist)@.nodes[self@.0 as int].object),
    {
        netlist.delete_net_uses(self)
    }

    /// Replaces the uses of this node by `other`; see [Netlist::replace_net_uses].
    pub fn replace_uses_with<I: Instantiable + Clone>(self, netlist: &mut Netlist<I>, other: &Self) -> (r: Result<Object<I>, NetlistError>)
        requires
            old(netlist).wf(),
            valid_ref(old(netlist)@, self@),
            valid_ref(old(netlist)@, other@),
            nets_at(old(netlist)@, self@.0 as int).len() == 1,
            nets_at(old(netlist)@, other@.0 as int).len() == 1,
        ensures
            final(netlist).wf(),
            slots_rewritten(old(netlist)@, final(netlist)@, self@.0, Some(Operand::DirectIndex(other@.0 as usize))),
            final(netlist)@.outputs == outputs_replaced(
                old(netlist)@.outputs,
                Operand::DirectIndex(self@.0 as usize),
                Operand::DirectIndex(other@.0 as usize),
            ),
            final(netlist)@.name == old(netlist)@.name,
            final(netlist)@.epoch == old(netlist)@.epoch,
            r is Ok && object_copy(r.unwrap(), old(netlist)@.nodes[self@.0 as int].object),
    {
        netlist.replace_net_uses(self, other)
    }

    /// Removes the attribute keyed `k`; returns its value, if it was set.
    pub fn clear_attribute<I: Instantiable>(&self, netlist: &mut Netlist<I>, k: &AttributeKey) -> (r: Option<AttributeValue>)
        requires
            old(netlist).wf(),
            valid_ref(old(netlist)@, self@),
        ensures
            final(netlist).wf(),
            final(netlist)@ == with_attributes(old(netlist)@, self@.0 as int, attr_remove(old(netlist)@.nodes[self@.0 as int].attributes, k@)),
            match r {
                Some(p) => attr_lookup(old(netlist)@.nodes[self@.0 as int].attributes, k@) == Some(value_view(p)),
                None => attr_lookup(old(netlist)@.nodes[self@.0 as int].attributes, k@) is None,
            },
    {
        netlist.drop_attribute(self.index, k)
    }

    /// Sets the attribute keyed `k`, without a value.
    pub fn set_attribute<I: Instantiable>(&self, netlist: &mut Netlist<I>, k: AttributeKey)
        requires
            old(netlist).wf(),
            valid_ref(old(netlist)@, self@),
        ensures
            final(netlist).wf(),
            final(netlist)@ == with_attributes(old(netlist)@, self@.0 as int, attr_insert(old(netlist)@.nodes[self@.0 as int].attributes, k@, None)),
    {
        netlist.put_attribute(self.index, k, None);
    }

    /// Sets the attribute keyed `k` to `v`; returns the previous value, if any.
    pub fn insert_attribute<I: Instantiable>(&self, netlist: &mut Netlist<I>, k: AttributeKey, v: String) -> (r: Option<AttributeValue>)
        requires
            old(netlist).wf(),
            valid_ref(old(netlist)@, self@),
        ensures
            final(netlist).wf(),
            final(netlist)@ == with_attributes(old(netlist)@, self@.0 as int, attr_insert(old(netlist)@.nodes[self@.0 as int].attributes, k@, Some(v@))),
            match r {
                Some(p) => attr_lookup(old(netlist)@.nodes[self@.0 as int].attributes, k@) == Some(value_view(p)),
                None => attr_lookup(old(netlist)@.nodes[self@.0 as int].attributes, k@) is None,
            },
    {
        netlist.put_attribute(self.index, k, Some(v))
    }

    /// Returns copies of the attributes of this node, in insertion order.
    pub fn attributes<I: Instantiable>(&self, netlist: &Netlist<I>) -> (r: Vec<Attribute>)
        requires
            valid_ref(netlist@, self@),
        ensures
            r@.map_values(|a: Attribute| a@) == netlist@.nodes[self@.0 as int].attributes,
    {
        netlist.attributes_at(self.index)
    }

    /// Returns the output of this instance whose port is named `port`.
    #[verifier::loop_isolation(false)]
    pub fn find_output<I: Instantiable>(&self, netlist: &Netlist<I>, port: &Identifier) -> (r: Option<DrivenNet>)
        requires
            netlist.wf(),
            valid_ref(netlist@, self@),
        ensures
            match r {
                Some(d) => !is_input_at(netlist@, self@.0 as int) && d@.0 == self@.0 && d@.2 == self@.1
                    && d@.1 < inst_at(netlist@, self@.0 as int).spec_output_ports().len()
                    && inst_at(netlist@, self@.0 as int).spec_output_ports()[d@.1 as int]@.0 == port@
                    && valid_driven(netlist@, d@),
                None => is_input_at(netlist@, self@.0 as int) || forall|q: int| 0 <= q < inst_at(netlist@, self@.0 as int).spec_output_ports().len()
                    ==> (#[trigger] inst_at(netlist@, self@.0 as int).spec_output_ports()[q])@.0 != port@,
            },
    {
        match netlist.object_at(self.index) {
            Object::Input(_) => None,
            Object::Instance(_, _, inst) => {
                proof {
                    assert(node_wf(netlist@.nodes[self@.0 as int]));
                }
                let ports = inst.get_output_ports();
                let mut q: usize = 0;
                while q < ports.len()
                    invariant
                        ports@ == inst.spec_output_ports(),
                        q <= ports@.len(),
                        forall|x: int| 0 <= x < q ==> (#[trigger] ports@[x])@.0 != port@,
                    decreases ports@.len() - q,
                {
                    if *ports[q].get_identifier() == *port {
                        return Some(DrivenNet { pos: q, netref: *self });
                    }
                    q = q + 1;
                }
                None
            },
        }
    }

    /// Returns the input slot of this instance whose port is named `port`.
    #[verifier::loop_isolation(false)]
    pub fn find_input<I: Instantiable>(&self, netlist: &Netlist<I>, port: &Identifier) -> (r: Option<InputPort>)
        requires
            netlist.wf(),
            valid_ref(netlist@, self@),
        ensures
            match r {
                Some(d) => !is_input_at(netlist@, self@.0 as int) && d@.0 == self@.0 && d@.2 == self@.1
                    && d@.1 < inst_at(netlist@, self@.0 as int).spec_input_ports().len()
                    && inst_at(netlist@, self@.0 as int).spec_input_ports()[d@.1 as int]@.0 == port@
                    && valid_input(netlist@, d@),
                None => is_input_at(netlist@, self@.0 as int) || forall|q: int| 0 <= q < inst_at(netlist@, self@.0 as int).spec_input_ports().len()
                    ==> (#[trigger] inst_at(netlist@, self@.0 as int).spec_input_ports()[q])@.0 != port@,
            },
    {
        match netlist.object_at(self.index) {
            Object::Input(_) => None,
            Object::Instance(_, _, inst) => {
                proof {
                    assert(node_wf(netlist@.nodes[self@.0 as int]));
                }
                let ports = inst.get_input_ports();
                let mut q: usize = 0;
                while q < ports.len()
                    invariant
                        ports@ == inst.spec_input_ports(),
                        q <= ports@.len(),
                        forall|x: int| 0 <= x < q ==> (#[trigger] ports@[x])@.0 != port@,
                    decreases ports@.len() - q,
                {
                    if *ports[q].get_identifier() == *port {
                        return Some(InputPort { pos: q, netref: *self });
                    }
                    q = q + 1;
                }
                None
            },
        }
    }
}

impl DrivenNet {
    /// Returns the net that this output drives.
    pub fn as_net<'a, I: Instantiable>(&self, netlist: &'a Netlist<I>) -> (r: &'a Net)
        requires
            valid_driven(netlist@, self@),
        ensures
            *r == nets_at(netlist@, self@.0 as int)[self@.1 as int],
    {
        netlist.net_at(self.netref.index, self.pos)
    }

    /// Renames the net that this output drives.
    pub fn set_identifier<I: Instantiable>(&self, netlist: &mut Netlist<I>, identifier: Identifier)
        requires
            old(netlist).wf(),
            valid_driven(old(netlist)@, self@),
        ensures
            final(netlist).wf(),
            only_object_changed(old(netlist)@, final(netlist)@, self@.0 as int),
            net_renamed(old(netlist)@.nodes[self@.0 as int].object, final(netlist)@.nodes[self@.0 as int].object, self@.1 as int, identifier@),
    {
        netlist.rename_net(self.netref.index, self.pos, identifier);
    }

    /// Returns `true` if this is the output of a principal input.
    pub fn is_an_input<I: Instantiable>(&self, netlist: &Netlist<I>) -> (r: bool)
        requires
            valid_driven(netlist@, self@),
        ensures
            r == is_input_at(netlist@, self@.0 as int),
    {
        netlist.is_input_node(self.netref.index)
    }

    /// Returns a copy of the port of the instance type behind this output.
    pub fn get_port<I: Instantiable>(&self, netlist: &Netlist<I>) -> (r: Net)
        requires
            netlist.wf(),
            valid_driven(netlist@, self@),
            !is_input_at(netlist@, self@.0 as int),
        ensures
            r@ == inst_at(netlist@, self@.0 as int).spec_output_ports()[self@.1 as int]@,
    {
        proof {
            assert(node_wf(netlist@.nodes[self@.0 as int]));
        }
        match netlist.object_at(self.netref.index) {
            Object::Instance(_, _, inst) => inst.get_output_port(self.pos).clone(),
            Object::Input(net) => net.clone(),
        }
    }

    /// Wires this output into `input`, replacing whatever drove it before.
    pub fn connect<I: Instantiable>(&self, netlist: &mut Netlist<I>, input: InputPort)
        requires
            old(netlist).wf(),
            valid_driven(old(netlist)@, self@),
            valid_input(old(netlist)@, input@),
        ensures
            final(netlist).wf(),
            final(netlist)@ == with_operand(old(netlist)@, input@.0 as int, input@.1 as int, Some(driven_operand(old(netlist)@, self@))),
    {
        let op = netlist.operand_of(self);
        netlist.set_operand(input.netref.index, input.pos, Some(op));
    }

    /// Returns `true` if this output is exposed as a top-level output.
    pub fn is_top_level_output<I: Instantiable>(&self, netlist: &Netlist<I>) -> (r: bool)
        requires
            netlist.wf(),
            valid_driven(netlist@, self@),
        ensures
            r == has_key(netlist@.outputs, driven_operand(netlist@, self@)),
    {
        let op = netlist.operand_of(self);
        netlist.find_key(op).is_some()
    }

    /// Returns the handle of the node behind this output.
    pub fn unwrap(self) -> (r: NetRef)
        ensures
            r@ == (self@.0, self@.2),
    {
        self.netref
    }

    /// Returns a copy of the identifier of the net this output drives.
    pub fn get_identifier<I: Instantiable>(&self, netlist: &Netlist<I>) -> (r: Identifier)
        requires
            valid_driven(netlist@, self@),
        ensures
            r@ == nets_at(netlist@, self@.0 as int)[self@.1 as int]@.0,
    {
        netlist.net_at(self.netref.index, self.pos).get_identifier().clone()
    }

    /// Exposes this output as a top-level output bound to a net named `name`.
    pub fn expose_with_name<I: Instantiable>(self, netlist: &mut Netlist<I>, name: Identifier) -> (r: Self)
        requires
            old(netlist).wf(),
            valid_driven(old(netlist)@, self@),
        ensures
            final(netlist).wf(),
            r == self,
            final(netlist)@ == (NetlistView {
                outputs: outputs_insert(
                    old(netlist)@.outputs,
                    driven_operand(old(netlist)@, self@),
                    (name@, nets_at(old(netlist)@, self@.0 as int)[self@.1 as int]@.1),
                ),
                ..old(netlist)@
            }),
    {
        netlist.expose_net_with_name(self, name)
    }
}

impl InputPort {
    /// Returns the output that drives this input slot, if connected.
    pub fn get_driver<I: Instantiable>(&self, netlist: &Netlist<I>) -> (r: Option<DrivenNet>)
        requires
            valid_input(netlist@, self@),
        ensures
            match netlist@.nodes[self@.0 as int].operands[self@.1 as int] {
                Some(op) => r is Some && r.unwrap()@ == (op_root(op), op_secondary(op), netlist@.epoch),
                None => r is None,
            },
    {
        match netlist.operand_at(self.netref.index, self.pos) {
            Some(op) => Some(netlist.driven_at(op)),
            None => None,
        }
    }

    /// Disconnects this input slot; returns the output that drove it, if any.
    pub fn disconnect<I: Instantiable>(&self, netlist: &mut Netlist<I>) -> (r: Option<DrivenNet>)
        requires
            old(netlist).wf(),
            valid_input(old(netlist)@, self@),
        ensures
            final(netlist).wf(),
            final(netlist)@ == with_operand(old(netlist)@, self@.0 as int, self@.1 as int, None),
            match old(netlist)@.nodes[self@.0 as int].operands[self@.1 as int] {
                Some(op) => r is Some && r.unwrap()@ == (op_root(op), op_secondary(op), old(netlist)@.epoch),
                None => r is None,
            },
    {
        let prev = self.get_driver(netlist);
        netlist.set_operand(self.netref.index, self.pos, None);
        prev
    }

    /// Returns a copy of the port of the instance type behind this slot.
    pub fn get_port<I: Instantiable>(&self, netlist: &Netlist<I>) -> (r: Net)
        requires
            netlist.wf(),
            valid_input(netlist@, self@),
            !is_input_at(netlist@, self@.0 as int),
        ensures
            r@ == inst_at(netlist@, self@.0 as int).spec_input_ports()[self@.1 as int]@,
    {
        proof {
            assert(node_wf(netlist@.nodes[self@.0 as int]));
        }
        match netlist.object_at(self.netref.index) {
            Object::Instance(_, _, inst) => inst.get_input_port(self.pos).clone(),
            Object::Input(net) => net.clone(),
        }
    }

    /// Wires `output` into this slot, replacing whatever drove it before.
    pub fn connect<I: Instantiable>(self, netlist: &mut Netlist<I>, output: DrivenNet)
        requires
            old(netlist).wf(),
            valid_driven(old(netlist)@, output@),
            valid_input(old(netlist)@, self@),
        ensures
            final(netlist).wf(),
            final(netlist)@ == with_operand(old(netlist)@, self@.0 as int, self@.1 as int, Some(driven_operand(old(netlist)@, output@))),
    {
        output.connect(netlist, self);
    }

    /// Returns the handle of the node behind this slot.
    pub fn unwrap(self) -> (r: NetRef)
        ensures
            r@ == (self@.0, self@.2),
    {
        self.netref
    }
}

/// A realized wire: an output and an input slot that it drives.
#[derive(Debug, Clone, Copy, PartialEq, Eq, Structural, Hash)]
pub struct Connection {
    driver: DrivenNet,
    input: InputPort,
}

impl View for Connection {
    type V = ((nat, nat, u64), (nat, nat, u64));

    closed spec fn view(&self) -> ((nat, nat, u64), (nat, nat, u64)) {
        (self.driver@, self.input@)
    }
}

impl Connection {
    /// Returns the driver of the connection
    pub fn src(&self) -> (r: DrivenNet)
        ensures
            r@ == self@.0,
    {
        self.driver
    }

    /// Returns a copy of the net along the connection
    pub fn net<I: Instantiable>(&self, netlist: &Netlist<I>) -> (r: Net)
        requires
            valid_driven(netlist@, self@.0),
        ensures
            r@ == nets_at(netlist@, self@.0.0 as int)[self@.0.1 as int]@,
    {
        self.driver.as_net(netlist).clone()
    }

    /// Returns the input port of the connection
    pub fn target(&self) -> (r: InputPort)
        ensures
            r@ == self@.1,
    {
        self.input
    }
}

/// The connections of slots `0..m` of node `i`, in slot order.
pub open spec fn slot_conns<I>(v: NetlistView<I>, i: int, m: int) -> Seq<((nat, nat, u64), (nat, nat, u64))>
    decreases m,
{
    if m <= 0 {
        Seq::empty()
    } else {
        match v.nodes[i].operands[m - 1] {
            Some(op) => slot_conns(v, i, m - 1).push(((op_root(op), op_secondary(op), v.epoch), (i as nat, (m - 1) as nat, v.epoch))),
            None => slot_conns(v, i, m - 1),
        }
    }
}

/// The connections of the first `n` nodes, in node then slot order.
pub open spec fn conns<I>(v: NetlistView<I>, n: int) -> Seq<((nat, nat, u64), (nat, nat, u64))>
    decreases n,
{
    if n <= 0 {
        Seq::empty()
    } else {
        conns(v, n - 1) + slot_conns(v, n - 1, v.nodes[n - 1].operands.len() as int)
    }
}

/// The handles of the principal inputs among the first `n` nodes, in store order.
pub open spec fn input_handles<I>(v: NetlistView<I>, n: int) -> Seq<(nat, nat, u64)>
    decreases n,
{
    if n <= 0 {
        Seq::empty()
    } else if is_input_at(v, n - 1) {
        input_handles(v, n - 1).push(((n - 1) as nat, 0nat, v.epoch))
    } else {
        input_handles(v, n - 1)
    }
}

impl<I: Instantiable> Netlist<I> {
    /// Returns handles to all nodes, in store order.
    pub fn objects(&self) -> (r: Vec<NetRef>)
        ensures
            r@.len() == self@.nodes.len(),
            forall|i: int| 0 <= i < r@.len() ==> (#[trigger] r@[i])@ == (i as nat, self@.epoch),
    {
        let n = self.objects.len();
        let mut r: Vec<NetRef> = Vec::new();
        let mut i: usize = 0;
        while i < n
            invariant
                n == self@.nodes.len(),
                i <= n,
                r@.len() == i,
                forall|q: int| 0 <= q < i ==> (#[trigger] r@[q])@ == (q as nat, self@.epoch),
            decreases n - i,
        {
            r.push(self.netref_at(i));
            i = i + 1;
        }
        r
    }

    /// Returns handles to the outputs of the principal inputs, in store order.
    pub fn inputs(&self) -> (r: Vec<DrivenNet>)
        ensures
            r@.map_values(|d: DrivenNet| d@) == input_handles(self@, self@.nodes.len() as int),
    {
        let n = self.objects.len();
        let mut r: Vec<DrivenNet> = Vec::new();
        let mut i: usize = 0;
        proof {
            assert(r@.map_values(|d: DrivenNet| d@) =~= input_handles(self@, 0));
        }
        while i < n
            invariant
                n == self@.nodes.len(),
                i <= n,
                r@.map_values(|d: DrivenNet| d@) == input_handles(self@, i as int),
            decreases n - i,
        {
            if self.is_input_node(i) {
                r.push(DrivenNet { pos: 0, netref: self.netref_at(i) });
                proof {
                    assert(r@.map_values(|d: DrivenNet| d@) =~= input_handles(self@, i + 1));
                }
            }
            i = i + 1;
        }
        r
    }

    /// Returns copies of the nets of the principal inputs, in store order.
    pub fn get_input_ports(&self) -> (r: Vec<Net>)
        ensures
            r@.len() == input_handles(self@, self@.nodes.len() as int).len(),
            forall|k: int| 0 <= k < r@.len() ==> (#[trigger] r@[k])@ == nets_at(self@, input_handles(self@, self@.nodes.len() as int)[k].0 as int)[0]@,
    {
        let ins = self.inputs();
        let ghost h = input_handles(self@, self@.nodes.len() as int);
        proof {
            lemma_input_handles_valid(self@, self@.nodes.len() as int);
        }
        let mut r: Vec<Net> = Vec::new();
        let mut k: usize = 0;
        while k < ins.len()
            invariant
                ins@.map_values(|d: DrivenNet| d@) == h,
                h == input_handles(self@, self@.nodes.len() as int),
                forall|q: int| 0 <= q < h.len() ==> #[trigger] h[q].0 < self@.nodes.len() && is_input_at(self@, h[q].0 as int) && h[q].1 == 0 && h[q].2 == self@.epoch,
                k <= ins@.len(),
                r@.len() == k,
                forall|q: int| 0 <= q < k ==> (#[trigger] r@[q])@ == nets_at(self@, h[q].0 as int)[0]@,
            decreases ins@.len() - k,
        {
            assert(ins@[k as int]@ == h[k as int]);
            proof {
                let x = h[k as int].0 as int;
                assert(is_input_at(self@, x));
                assert(nets_at(self@, x).len() == 1);
            }
            r.push(ins[k].as_net(self).clone());
            k = k + 1;
        }
        r
    }

    /// Returns each top-level output: a handle to the output that drives it,
    /// with the net it is bound to.
    pub fn outputs(&self) -> (r: Vec<(DrivenNet, Net)>)
        ensures
            r@.len() == self@.outputs.len(),
            forall|k: int| 0 <= k < r@.len() ==> (#[trigger] r@[k]).0@ == (op_root(self@.outputs[k].0), op_secondary(self@.outputs[k].0), self@.epoch)
                && r@[k].1@ == self@.outputs[k].1,
    {
        let mut r: Vec<(DrivenNet, Net)> = Vec::new();
        let mut k: usize = 0;
        while k < self.outputs.len()
            invariant
                self.outputs@.map_values(|p: (Operand, Net)| (p.0, p.1@)) == self@.outputs,
                k <= self@.outputs.len(),
                r@.len() == k,
                forall|q: int| 0 <= q < k ==> (#[trigger] r@[q]).0@ == (op_root(self@.outputs[q].0), op_secondary(self@.outputs[q].0), self@.epoch)
                    && r@[q].1@ == self@.outputs[q].1,
            decreases self@.outputs.len() - k,
        {
            r.push((self.driven_at(self.outputs[k].0), self.outputs[k].1.clone()));
            k = k + 1;
        }
        r
    }

    /// Returns copies of the nets that the top-level outputs are bound to.
    pub fn get_output_ports(&self) -> (r: Vec<Net>)
        ensures
            r@.len() == self@.outputs.len(),
            forall|k: int| 0 <= k < r@.len() ==> (#[trigger] r@[k])@ == self@.outputs[k].1,
    {
        let mut r: Vec<Net> = Vec::new();
        let mut k: usize = 0;
        while k < self.outputs.len()
            invariant
                self.outputs@.map_values(|p: (Operand, Net)| (p.0, p.1@)) == self@.outputs,
                k <= self@.outputs.len(),
                r@.len() == k,
                forall|q: int| 0 <= q < k ==> (#[trigger] r@[q])@ == self@.outputs[q].1,
            decreases self@.outputs.len() - k,
        {
            r.push(self.outputs[k].1.clone());
            k = k + 1;
        }
        r
    }

    /// Returns every realized wire, in node then slot order.
    #[verifier::spinoff_prover]
    pub fn connections(&self) -> (r: Vec<Connection>)
        ensures
            r@.map_values(|c: Connection| c@) == conns(self@, self@.nodes.len() as int),
    {
        let n = self.objects.len();
        let mut r: Vec<Connection> = Vec::new();
        let mut i: usize = 0;
        proof {
            assert(r@.map_values(|c: Connection| c@) =~= conns(self@, 0));
        }
        while i < n
            invariant
                n == self@.nodes.len(),
                i <= n,
                r@.map_values(|c: Connection| c@) == conns(self@, i as int),
            decreases n - i,
        {
            let m = self.n_operands(i);
            let ghost base = r@.map_values(|c: Connection| c@);
            let mut j: usize = 0;
            proof {
                assert(base + slot_conns(self@, i as int, 0) =~= base);
            }
            while j < m
                invariant
                    n == self@.nodes.len(),
                    i < n,
                    m == self@.nodes[i as int].operands.len(),
                    j <= m,
                    base == conns(self@, i as int),
                    r@.map_values(|c: Connection| c@) == base + slot_conns(self@, i as int, j as int),
                decreases m - j,
            {
                match self.operand_at(i, j) {
                    Some(op) => {
                        let ghost before = r@;
                        r.push(Connection { driver: self.driven_at(op), input: InputPort { pos: j, netref: self.netref_at(i) } });
                        proof {
                            assert(r@.map_values(|c: Connection| c@) =~= before.map_values(|c: Connection| c@).push(r@.last()@));
                            assert(r@.map_values(|c: Connection| c@) =~= base + slot_conns(self@, i as int, j + 1));
                        }
                    },
                    None => {},
                }
                j = j + 1;
            }
            i = i + 1;
        }
        r
    }
}

/// The input handles address principal inputs.
pub proof fn lemma_input_handles_valid<I>(v: NetlistView<I>, n: int)
    requires
        0 <= n <= v.nodes.len(),
    ensures
        forall|q: int| 0 <= q < input_handles(v, n).len() ==> #[trigger] input_handles(v, n)[q].0 < n && is_input_at(v, input_handles(v, n)[q].0 as int)
            && input_handles(v, n)[q].1 == 0 && input_handles(v, n)[q].2 == v.epoch,
    decreases n,
{
    if n > 0 {
        lemma_input_handles_valid(v, n - 1);
        let prev = input_handles(v, n - 1);
        let cur = input_handles(v, n);
        assert forall|q: int| 0 <= q < cur.len() implies #[trigger] cur[q].0 < n && is_input_at(v, cur[q].0 as int)
            && cur[q].1 == 0 && cur[q].2 == v.epoch by {
            if q < prev.len() {
                assert(cur[q] == prev[q]);
            }
        }
    }
}

/// Every connection has a valid driver.
pub proof fn lemma_conns_valid<I: Instantiable>(v: NetlistView<I>, n: int)
    requires
        view_wf(v),
        0 <= n <= v.nodes.len(),
    ensures
        forall|q: int| 0 <= q < conns(v, n).len() ==> valid_driven(v, (#[trigger] conns(v, n)[q]).0)
            && conns(v, n)[q].1.0 < n,
    decreases n,
{
    if n > 0 {
        lemma_conns_valid(v, n - 1);
        lemma_slot_conns_valid(v, n - 1, v.nodes[n - 1].operands.len() as int);
        let a = conns(v, n - 1);
        let b = slot_conns(v, n - 1, v.nodes[n - 1].operands.len() as int);
        assert forall|q: int| 0 <= q < conns(v, n).len() implies valid_driven(v, (#[trigger] conns(v, n)[q]).0)
            && conns(v, n)[q].1.0 < n by {
            if q < a.len() {
                assert(conns(v, n)[q] == a[q]);
            } else {
                assert(conns(v, n)[q] == b[q - a.len()]);
            }
        }
    }
}

/// Every connection of a node has a valid driver.
pub proof fn lemma_slot_conns_valid<I: Instantiable>(v: NetlistView<I>, i: int, m: int)
    requires
        view_wf(v),
        0 <= i < v.nodes.len(),
        0 <= m <= v.nodes[i].operands.len(),
    ensures
        forall|q: int| 0 <= q < slot_conns(v, i, m).len() ==> valid_driven(v, (#[trigger] slot_conns(v, i, m)[q]).0)
            && slot_conns(v, i, m)[q].1.0 == i,
    decreases m,
{
    if m > 0 {
        lemma_slot_conns_valid(v, i, m - 1);
        let a = slot_conns(v, i, m - 1);
        match v.nodes[i].operands[m - 1] {
            Some(op) => {
                assert(v.nodes[i].operands[m - 1] is Some);
                assert(valid_operand(v, op));
                assert forall|q: int| 0 <= q < slot_conns(v, i, m).len() implies valid_driven(v, (#[trigger] slot_conns(v, i, m)[q]).0)
                    && slot_conns(v, i, m)[q].1.0 == i by {
                    if q < a.len() {
                        assert(slot_conns(v, i, m)[q] == a[q]);
                    }
                }
            },
            None => {},
        }
    }
}

impl<I: Instantiable> Netlist<I> {
    /// The driver of every top-level output exists.
    pub proof fn lemma_output_valid(&self, k: int)
        requires
            self.wf(),
            0 <= k < self@.outputs.len(),
        ensures
            valid_driven(self@, (op_root(self@.outputs[k].0), op_secondary(self@.outputs[k].0), self@.epoch)),
    {
        assert(valid_operand(self@, self@.outputs[k].0));
    }
}

impl<I: Instantiable> Netlist<I> {
    /// The store invariant implies the abstract one.
    pub proof fn lemma_wf_view(&self)
        requires
            self.wf(),
        ensures
            view_wf(self@),
    {
    }
}

/// Handles are equal exactly when they address the same node in the same epoch.
pub proof fn lemma_netref_eq(a: NetRef, b: NetRef)
    ensures
        (a == b) <==> (a@ == b@),
{
}

impl NetRef {
    /// The index of the node this handle addresses.
    pub fn get_index<I: Instantiable>(&self, netlist: &Netlist<I>) -> (r: usize)
        ensures
            r == self@.0,
    {
        self.index
    }

    /// The index of the node, whatever the netlist.
    pub fn raw_index(&self) -> (r: usize)
        ensures
            r == self@.0,
    {
        self.index
    }

    /// The layout epoch the handle was made in.
    pub fn raw_epoch(&self) -> (r: u64)
        ensures
            r == self@.1,
    {
        self.epoch
    }
}

impl<I: Instantiable> Netlist<I> {
    /// The current layout epoch.
    pub fn epoch_of(&self) -> (r: u64)
        ensures
            r == self@.epoch,
    {
        self.epoch
    }
}

/// A netlist of [Gate] primitives
pub type GateNetlist = Netlist<Gate>;

/// A handle to a node of a [GateNetlist]
pub type GateRef = NetRef;

/// `n` is the instance `o` with its name replaced by `name`.
pub open spec fn instance_renamed<I>(o: Object<I>, n: Object<I>, name: Identifier) -> bool {
    match (o, n) {
        (Object::Instance(a, _, s), Object::Instance(b, m, t)) => a == b && m == name && s == t,
        _ => false,
    }
}

/// `n` is the instance `o` with its type replaced by `inst`.
pub open spec fn instance_retyped<I>(o: Object<I>, n: Object<I>, inst: I) -> bool {
    match (o, n) {
        (Object::Instance(a, x, _), Object::Instance(b, y, t)) => a == b && x == y && t == inst,
        _ => false,
    }
}

impl<I> OwnedObject<I> {
    fn rename_instance(&mut self, name: Identifier)
        requires
            old(self).object is Instance,
        ensures
            instance_renamed(old(self).object, final(self).object, name),
            final(self).operands == old(self).operands,
            final(self).attributes == old(self).attributes,
            final(self).index == old(self).index,
    {
        match &mut self.object {
            Object::Instance(_, n, _) => {
                *n = name;
            },
            Object::Input(_) => {},
        }
    }

    fn retype_instance(&mut self, inst: I)
        requires
            old(self).object is Instance,
        ensures
            instance_retyped(old(self).object, final(self).object, inst),
            final(self).operands == old(self).operands,
            final(self).attributes == old(self).attributes,
            final(self).index == old(self).index,
    {
        match &mut self.object {
            Object::Instance(_, _, t) => {
                *t = inst;
            },
            Object::Input(_) => {},
        }
    }
}

impl<I: Instantiable> Netlist<I> {
    /// The store invariant survives a change of node `i` that keeps its
    /// shape: its nets, its operands, and its node invariant.
    proof fn lemma_reshaped(&self, old_self: &Self, i: int)
        requires
            old_self.wf(),
            0 <= i < old_self@.nodes.len(),
            only_object_changed(old_self@, self@, i),
            object_nets(self@.nodes[i].object).len() == object_nets(old_self@.nodes[i].object).len(),
            node_wf(self@.nodes[i]),
            self.objects@.len() == old_self.objects@.len(),
            forall|k: int| 0 <= k < self.objects@.len() ==> (#[trigger] self.objects@[k]).index == old_self.objects@[k].index,
        ensures
            self.wf(),
    {
        let old_v = old_self@;
        let v = self@;
        assert forall|k: int| 0 <= k < old_v.nodes.len() implies (#[trigger] nets_at(old_v, k)).len() == nets_at(v, k).len() by {
            if k != i {
                assert(v.nodes[k] == old_v.nodes[k]);
            }
        }
        lemma_same_shape(old_v, v);
        assert forall|k: int| 0 <= k < v.nodes.len() implies node_wf(#[trigger] v.nodes[k]) by {
            if k != i {
                assert(v.nodes[k] == old_v.nodes[k]);
            }
        }
        assert forall|a: int, j: int|
            0 <= a < v.nodes.len() && 0 <= j < v.nodes[a].operands.len()
                && #[trigger] v.nodes[a].operands[j] is Some implies valid_operand(v, v.nodes[a].operands[j].unwrap()) by {
            if a != i {
                assert(v.nodes[a] == old_v.nodes[a]);
            }
            assert(old_v.nodes[a].operands[j] is Some);
        }
        assert forall|k: int| 0 <= k < v.outputs.len() implies valid_operand(v, (#[trigger] v.outputs[k]).0) by {
            assert(old_v.outputs[k] == v.outputs[k]);
        }
        assert forall|k: int| 0 <= k < self.objects@.len() implies (#[trigger] self.objects@[k]).index == k by {
            assert(old_self.objects@[k].index == k);
        }
    }
}

impl NetRef {
    /// Renames this instance.
    #[verifier::spinoff_prover]
    pub fn set_instance_name<I: Instantiable>(&self, netlist: &mut Netlist<I>, name: Identifier)
        requires
            old(netlist).wf(),
            valid_ref(old(netlist)@, self@),
            !is_input_at(old(netlist)@, self@.0 as int),
        ensures
            final(netlist).wf(),
            only_object_changed(old(netlist)@, final(netlist)@, self@.0 as int),
            instance_renamed(old(netlist)@.nodes[self@.0 as int].object, final(netlist)@.nodes[self@.0 as int].object, name),
    {
        let i = self.index;
        proof {
            assert(netlist@.nodes[i as int] == netlist.objects@[i as int]@);
            assert(node_wf(netlist@.nodes[i as int]));
        }
        let ghost before = *netlist;
        netlist.objects[i].rename_instance(name);
        proof {
            let v = netlist@;
            assert forall|k: int| 0 <= k < before@.nodes.len() && k != i implies #[trigger] v.nodes[k] == before@.nodes[k] by {
                assert(netlist.objects@[k] == before.objects@[k]);
            }
            assert(v.nodes[i as int] == netlist.objects@[i as int]@);
            assert(v.outputs =~= before@.outputs);
            assert forall|k: int| 0 <= k < netlist.objects@.len() implies (#[trigger] netlist.objects@[k]).index == before.objects@[k].index by {
                if k != i {
                    assert(netlist.objects@[k] == before.objects@[k]);
                }
            }
            assert(node_wf(before@.nodes[i as int]));
            match (before@.nodes[i as int].object, v.nodes[i as int].object) {
                (Object::Instance(a, _, x), Object::Instance(b, _, y)) => {
                    assert(object_nets(before@.nodes[i as int].object) == a@);
                    assert(object_nets(v.nodes[i as int].object) == b@);
                },
                _ => {},
            }
            assert(v.nodes[i as int].operands == before@.nodes[i as int].operands);
            assert(v.nodes[i as int].attributes == before@.nodes[i as int].attributes);
            assert(node_wf(v.nodes[i as int]));
            netlist.lemma_reshaped(&before, i as int);
        }
    }

    /// Replaces the instance type of this instance by one with the same
    /// number of input and output ports.
    #[verifier::spinoff_prover]
    pub fn set_instance_type<I: Instantiable>(&self, netlist: &mut Netlist<I>, inst: I)
        requires
            old(netlist).wf(),
            valid_ref(old(netlist)@, self@),
            !is_input_at(old(netlist)@, self@.0 as int),
            inst.spec_input_ports().len() == inst_at(old(netlist)@, self@.0 as int).spec_input_ports().len(),
            inst.spec_output_ports().len() == inst_at(old(netlist)@, self@.0 as int).spec_output_ports().len(),
        ensures
            final(netlist).wf(),
            only_object_changed(old(netlist)@, final(netlist)@, self@.0 as int),
            instance_retyped(old(netlist)@.nodes[self@.0 as int].object, final(netlist)@.nodes[self@.0 as int].object, inst),
    {
        let i = self.index;
        proof {
            assert(netlist@.nodes[i as int] == netlist.objects@[i as int]@);
            assert(node_wf(netlist@.nodes[i as int]));
        }
        let ghost before = *netlist;
        netlist.objects[i].retype_instance(inst);
        proof {
            let v = netlist@;
            assert forall|k: int| 0 <= k < before@.nodes.len() && k != i implies #[trigger] v.nodes[k] == before@.nodes[k] by {
                assert(netlist.objects@[k] == before.objects@[k]);
            }
            assert(v.nodes[i as int] == netlist.objects@[i as int]@);
            assert(v.outputs =~= before@.outputs);
            assert forall|k: int| 0 <= k < netlist.objects@.len() implies (#[trigger] netlist.objects@[k]).index == before.objects@[k].index by {
                if k != i {
                    assert(netlist.objects@[k] == before.objects@[k]);
                }
            }
            assert(node_wf(before@.nodes[i as int]));
            match (before@.nodes[i as int].object, v.nodes[i as int].object) {
                (Object::Instance(a, _, x), Object::Instance(b, _, y)) => {
                    assert(object_nets(before@.nodes[i as int].object) == a@);
                    assert(object_nets(v.nodes[i as int].object) == b@);
                },
                _ => {},
            }
            assert(v.nodes[i as int].operands == before@.nodes[i as int].operands);
            assert(v.nodes[i as int].attributes == before@.nodes[i as int].attributes);
            assert(node_wf(v.nodes[i as int]));
            netlist.lemma_reshaped(&before, i as int);
        }
    }
}

impl<I: Instantiable> Netlist<I> {
    /// A handle to node `i` in the current epoch.
    pub fn handle_at(&self, i: usize) -> (r: NetRef)
        ensures
            r@ == (i as nat, self@.epoch),
    {
        self.netref_at(i)
    }
}

/// The handles of the first `n` nodes that are instances whose type `f`
/// accepts, in store order.
pub open spec fn matching<I, F: Fn(&I) -> bool>(v: NetlistView<I>, f: F, n: int) -> Seq<(nat, u64)>
    decreases n,
{
    if n <= 0 {
        Seq::empty()
    } else {
        let rest = matching(v, f, n - 1);
        match v.nodes[n - 1].object {
            Object::Instance(_, _, inst) => if f.ensures((&inst,), true) {
                rest.push(((n - 1) as nat, v.epoch))
            } else {
                rest
            },
            Object::Input(_) => rest,
        }
    }
}

impl<I: Instantiable> Netlist<I> {
    /// Returns copies of all nets, in store and output order.
    pub fn nets(&self) -> (r: Vec<Net>)
        ensures
            r@.map_values(|x: Net| x@.0) == net_ids(self@, self@.nodes.len() as int),
    {
        let n = self.objects.len();
        let mut out: Vec<Net> = Vec::new();
        let mut i: usize = 0;
        proof {
            assert(out@.map_values(|x: Net| x@.0) =~= net_ids(self@, 0));
        }
        while i < n
            invariant
                n == self@.nodes.len(),
                i <= n,
                out@.map_values(|x: Net| x@.0) == net_ids(self@, i as int),
            decreases n - i,
        {
            let m = self.n_nets(i);
            let mut p: usize = 0;
            let ghost base = out@.map_values(|x: Net| x@.0);
            while p < m
                invariant
                    n == self@.nodes.len(),
                    i < n,
                    m == nets_at(self@, i as int).len(),
                    p <= m,
                    base == net_ids(self@, i as int),
                    out@.map_values(|x: Net| x@.0) == base + nets_at(self@, i as int).subrange(0, p as int).map_values(|x: Net| x@.0),
                decreases m - p,
            {
                let c = self.net_at(i, p).clone();
                let ghost cv = c@;
                let ghost before = out@;
                out.push(c);
                proof {
                    let ns = nets_at(self@, i as int);
                    assert(ns.subrange(0, p + 1) =~= ns.subrange(0, p as int).push(ns[p as int]));
                    assert(ns.subrange(0, p + 1).map_values(|x: Net| x@.0) =~= ns.subrange(0, p as int).map_values(|x: Net| x@.0).push(ns[p as int]@.0));
                    assert(out@ == before.push(c));
                    assert(out@.map_values(|x: Net| x@.0) =~= before.map_values(|x: Net| x@.0).push(cv.0));
                }
                p = p + 1;
            }
            proof {
                assert(nets_at(self@, i as int).subrange(0, m as int) =~= nets_at(self@, i as int));
            }
            i = i + 1;
        }
        out
    }

    /// Returns the instances whose type `filter` accepts, in store order.
    pub fn matches<F: Fn(&I) -> bool>(&self, filter: F) -> (r: Vec<NetRef>)
        requires
            forall|t: &I| #[trigger] filter.requires((t,)),
            forall|t: &I, a: bool, b: bool| #[trigger] filter.ensures((t,), a) && #[trigger] filter.ensures((t,), b) ==> a == b,
        ensures
            r@.map_values(|x: NetRef| x@) == matching(self@, filter, self@.nodes.len() as int),
    {
        let n = self.objects.len();
        let mut out: Vec<NetRef> = Vec::new();
        let mut i: usize = 0;
        proof {
            assert(out@.map_values(|x: NetRef| x@) =~= matching(self@, filter, 0));
        }
        while i < n
            invariant
                n == self@.nodes.len(),
                forall|t: &I| #[trigger] filter.requires((t,)),
                forall|t: &I, a: bool, b: bool| #[trigger] filter.ensures((t,), a) && #[trigger] filter.ensures((t,), b) ==> a == b,
                i <= n,
                out@.map_values(|x: NetRef| x@) == matching(self@, filter, i as int),
            decreases n - i,
        {
            match self.object_at(i) {
                Object::Instance(_, _, inst) => {
                    let keep = filter(inst);
                    if keep {
                        out.push(self.netref_at(i));
                        proof {
                            assert(out@.map_values(|x: NetRef| x@) =~= matching(self@, filter, i + 1));
                        }
                    } else {
                        proof {
                            assert(!filter.ensures((inst,), true));
                        }
                    }
                },
                Object::Input(_) => {},
            }
            i = i + 1;
        }
        out
    }
}

/// The text of an operand in the persistence format: `<index>` for a
/// direct operand, `<index>.<position>` for a cell operand.
pub open spec fn operand_key(op: Operand) -> Seq<char> {
    match op {
        Operand::DirectIndex(i) => decimal(i as nat),
        Operand::CellIndex(i, j) => decimal(i as nat) + seq!['.'] + decimal(j as nat),
    }
}

impl Operand {
    /// Renders the operand in the persistence format.
    pub fn to_key(&self) -> (r: String)
        ensures
            r@ == operand_key(*self),
    {
        match self {
            Operand::DirectIndex(i) => usize_to_decimal(*i),
            Operand::CellIndex(i, j) => {
                proof {
                    reveal_strlit(".");
                }
                let r = usize_to_decimal(*i).concat(".").concat(usize_to_decimal(*j).as_str());
                proof {
                    assert(r@ =~= operand_key(*self));
                }
                r
            },
        }
    }

    /// Reads an operand written in the persistence format; `None` when `s`
    /// is not the text of any operand.
    #[verifier::spinoff_prover]
    pub fn from_key(s: &str) -> (r: Option<Operand>)
        ensures
            r matches Some(op) ==> operand_key(op) == s@,
            (exists|op: Operand| operand_key(op) == s@) ==> r is Some,
    {
        let n = s.unicode_len();
        let mut p: usize = 0;
        let mut found = false;
        while p < n && !found
            invariant
                n == s@.len(),
                p <= n,
                forall|q: int| 0 <= q < p ==> s@[q] != '.',
                found ==> p < n && s@[p as int] == '.',
            decreases n - p + if found { 0int } else { 1int },
        {
            if s.get_char(p) == '.' {
                found = true;
            } else {
                p = p + 1;
            }
        }
        if !found {
            let r = match parse_decimal(s) {
                Some(v) => Some(Operand::DirectIndex(v)),
                None => None,
            };
            proof {
                if exists|op: Operand| operand_key(op) == s@ {
                    let op = choose|op: Operand| operand_key(op) == s@;
                    match op {
                        Operand::DirectIndex(i) => {
                            lemma_decimal_canonical(i as nat);
                        },
                        Operand::CellIndex(i, j) => {
                            lemma_decimal_canonical(i as nat);
                            let l = decimal(i as nat).len() as int;
                            assert(s@[l] == '.');
                        },
                    }
                }
            }
            return r;
        }
        let left = s.substring_char(0, p);
        let right = s.substring_char(p + 1, n);
        let r = match (parse_decimal(left), parse_decimal(right)) {
            (Some(a), Some(b)) => Some(Operand::CellIndex(a, b)),
            _ => None,
        };
        proof {
            assert(s@ =~= left@ + seq!['.'] + right@);
            if exists|op: Operand| operand_key(op) == s@ {
                let op = choose|op: Operand| operand_key(op) == s@;
                match op {
                    Operand::DirectIndex(i) => {
                        lemma_decimal_canonical(i as nat);
                        assert(is_digit(s@[p as int]));
                    },
                    Operand::CellIndex(i, j) => {
                        lemma_decimal_canonical(i as nat);
                        lemma_decimal_canonical(j as nat);
                        let l = decimal(i as nat).len() as int;
                        if p < l {
                            assert(is_digit(decimal(i as nat)[p as int]));
                            assert(s@[p as int] == decimal(i as nat)[p as int]);
                        } else if p > l {
                            assert(s@[l] == '.');
                        }
                        assert(left@ =~= decimal(i as nat));
                        assert(right@ =~= decimal(j as nat));
                    },
                }
            }
        }
        r
    }
}

impl DrivenNet {
    /// The operand that addresses this output in the store.
    pub fn get_operand<I: Instantiable>(&self, netlist: &Netlist<I>) -> (r: Operand)
        requires
            valid_driven(netlist@, self@),
        ensures
            r == driven_operand(netlist@, self@),
    {
        netlist.operand_of(self)
    }
}

impl NetRef {
    /// The operands of the input slots of this node, in slot order.
    pub fn get_operands<I: Instantiable>(&self, netlist: &Netlist<I>) -> (r: Vec<Option<Operand>>)
        requires
            valid_ref(netlist@, self@),
        ensures
            r@ == netlist@.nodes[self@.0 as int].operands,
    {
        proof {
            assert(netlist@.nodes[self@.0 as int] == netlist.objects@[self@.0 as int]@);
        }
        netlist.objects[self.index].operands.clone()
    }
}

/// The parts of one persisted node: its object, its operands and its attributes.
pub type NodeParts<I> = (Object<I>, Vec<Option<Operand>>, Vec<Attribute>);

/// The abstract value of the parts of one node.
pub open spec fn part_view<I>(t: NodeParts<I>) -> NodeView<I> {
    NodeView { object: t.0, operands: t.1@, attributes: t.2@.map_values(|a: Attribute| a@) }
}

/// The netlist that persisted parts describe, in layout epoch 0.
pub open spec fn parts_view<I>(name: Seq<char>, nodes: Seq<NodeParts<I>>, outputs: Seq<(Operand, Net)>) -> NetlistView<I> {
    NetlistView {
        name,
        nodes: nodes.map_values(|t: NodeParts<I>| part_view(t)),
        outputs: outputs.map_values(|p: (Operand, Net)| (p.0, p.1@)),
        epoch: 0,
    }
}

/// The number of nets of a persisted node.
fn part_nets_len<I>(t: &NodeParts<I>) -> (r: usize)
    ensures
        r == object_nets(t.0).len(),
{
    match &t.0 {
        Object::Input(_) => 1,
        Object::Instance(nets, _, _) => nets.len(),
    }
}

/// `op` addresses an output of the persisted nodes.
fn part_operand_ok<I>(nodes: &Vec<NodeParts<I>>, op: Operand, Ghost(v): Ghost<NetlistView<I>>) -> (r: bool)
    requires
        v.nodes == nodes@.map_values(|t: NodeParts<I>| part_view(t)),
    ensures
        r == valid_operand(v, op),
{
    let root = op.root();
    if root >= nodes.len() {
        return false;
    }
    let n = part_nets_len(&nodes[root]);
    proof {
        assert(v.nodes[root as int] == part_view(nodes@[root as int]));
    }
    match op {
        Operand::DirectIndex(_) => n == 1,
        Operand::CellIndex(_, j) => n > 1 && j < n,
    }
}

/// The keys of the attributes are distinct.
fn attr_keys_distinct(attrs: &Vec<Attribute>) -> (r: bool)
    ensures
        r == forall|a: int, b: int| 0 <= a < b < attrs@.len() ==> (#[trigger] attrs@[a])@.0 != (#[trigger] attrs@[b])@.0,
{
    let mut a: usize = 0;
    while a < attrs.len()
        invariant
            a <= attrs@.len(),
            forall|x: int, y: int| 0 <= x < a && x < y < attrs@.len() ==> (#[trigger] attrs@[x])@.0 != (#[trigger] attrs@[y])@.0,
        decreases attrs@.len() - a,
    {
        let mut b: usize = a + 1;
        while b < attrs.len()
            invariant
                a < attrs@.len(),
                a + 1 <= b <= attrs@.len(),
                forall|x: int, y: int| 0 <= x < a && x < y < attrs@.len() ==> (#[trigger] attrs@[x])@.0 != (#[trigger] attrs@[y])@.0,
                forall|y: int| a < y < b ==> attrs@[a as int]@.0 != (#[trigger] attrs@[y])@.0,
            decreases attrs@.len() - b,
        {
            if *attrs[a].key() == *attrs[b].key() {
                return false;
            }
            b = b + 1;
        }
        a = a + 1;
    }
    true
}

impl<I: Instantiable> Netlist<I> {
    /// Rebuilds a netlist from persisted parts: its name, its nodes in store
    /// order, and its outputs. Fails with [NetlistError::Malformed] unless the
    /// parts describe a well-shaped netlist: each node's operands and nets
    /// match its object, attribute keys are distinct, every operand and
    /// output addresses an existing output, and output keys are distinct.
    #[verifier::spinoff_prover]
    pub fn from_parts(name: String, nodes: Vec<NodeParts<I>>, outputs: Vec<(Operand, Net)>) -> (r: Result<Self, NetlistError>)
        ensures
            r is Ok <==> view_wf(parts_view(name@, nodes@, outputs@)),
            r matches Ok(nl) ==> nl.wf() && nl@ == parts_view(name@, nodes@, outputs@),
            r is Err ==> r == Err::<Self, NetlistError>(NetlistError::Malformed),
    {
        let ghost v = parts_view(name@, nodes@, outputs@);
        let n = nodes.len();
        let mut i: usize = 0;
        while i < n
            invariant
                n == nodes@.len(),
                v == parts_view(name@, nodes@, outputs@),
                i <= n,
                forall|x: int| 0 <= x < i ==> node_wf(#[trigger] v.nodes[x]),
                forall|x: int, j: int| 0 <= x < i && 0 <= j < v.nodes[x].operands.len() && #[trigger] v.nodes[x].operands[j] is Some
                    ==> valid_operand(v, v.nodes[x].operands[j].unwrap()),
            decreases n - i,
        {
            let t = &nodes[i];
            proof {
                assert(v.nodes[i as int] == part_view(nodes@[i as int]));
            }
            let shape_ok = match &t.0 {
                Object::Input(_) => t.1.len() == 0,
                Object::Instance(nets, _, inst) => nets.len() == inst.get_output_ports().len()
                    && t.1.len() == inst.get_input_ports().len(),
            };
            if !shape_ok || !attr_keys_distinct(&t.2) {
                proof {
                    let nv = v.nodes[i as int];
                    if node_wf(nv) {
                        assert forall|a: int, b: int| 0 <= a < b < t.2@.len() implies (#[trigger] t.2@[a])@.0 != (#[trigger] t.2@[b])@.0 by {
                            assert(nv.attributes[a] == t.2@[a]@);
                            assert(nv.attributes[b] == t.2@[b]@);
                        }
                    }
                    assert(!node_wf(v.nodes[i as int]));
                }
                return Err(NetlistError::Malformed);
            }
            proof {
                let nv = v.nodes[i as int];
                assert forall|a: int, b: int| 0 <= a < b < nv.attributes.len() implies (#[trigger] nv.attributes[a]).0 != (#[trigger] nv.attributes[b]).0 by {
                    assert(nv.attributes[a] == t.2@[a]@);
                    assert(nv.attributes[b] == t.2@[b]@);
                }
            }
            let m = t.1.len();
            let mut j: usize = 0;
            while j < m
                invariant
                    n == nodes@.len(),
                    i < n,
                    v == parts_view(name@, nodes@, outputs@),
                    v.nodes[i as int] == part_view(nodes@[i as int]),
                    m == nodes@[i as int].1@.len(),
                    j <= m,
                    forall|q: int| 0 <= q < j && #[trigger] v.nodes[i as int].operands[q] is Some
                        ==> valid_operand(v, v.nodes[i as int].operands[q].unwrap()),
                decreases m - j,
            {
                match nodes[i].1[j] {
                    Some(op) => {
                        if !part_operand_ok(&nodes, op, Ghost(v)) {
                            proof {
                                assert(v.nodes[i as int].operands[j as int] == Some(op));
                            }
                            return Err(NetlistError::Malformed);
                        }
                    },
                    None => {},
                }
                j = j + 1;
            }
            i = i + 1;
        }
        let mut k: usize = 0;
        while k < outputs.len()
            invariant
                n == nodes@.len(),
                v == parts_view(name@, nodes@, outputs@),
                k <= outputs@.len(),
                forall|q: int| 0 <= q < k ==> valid_operand(v, (#[trigger] v.outputs[q]).0),
                forall|a: int, b: int| 0 <= a < b < outputs@.len() && a < k ==> (#[trigger] v.outputs[a]).0 != (#[trigger] v.outputs[b]).0,
            decreases outputs@.len() - k,
        {
            let op = outputs[k].0;
            proof {
                assert(v.outputs[k as int].0 == op);
            }
            if !part_operand_ok(&nodes, op, Ghost(v)) {
                return Err(NetlistError::Malformed);
            }
            let mut b: usize = k + 1;
            while b < outputs.len()
                invariant
                    v == parts_view(name@, nodes@, outputs@),
                    k < outputs@.len(),
                    k + 1 <= b <= outputs@.len(),
                    op == v.outputs[k as int].0,
                    forall|y: int| k < y < b ==> op != (#[trigger] v.outputs[y]).0,
                decreases outputs@.len() - b,
            {
                if outputs[b].0 == op {
                    proof {
                        assert(v.outputs[b as int].0 == op);
                    }
                    return Err(NetlistError::Malformed);
                }
                proof {
                    assert(v.outputs[b as int].0 == outputs@[b as int].0);
                }
                b = b + 1;
            }
            k = k + 1;
        }
        let mut nodes = nodes;
        let ghost ns = nodes@;
        let mut rev: Vec<NodeParts<I>> = Vec::new();
        while nodes.len() > 0
            invariant
                ns.len() == n,
                nodes@.len() + rev@.len() == n,
                nodes@ == ns.subrange(0, nodes@.len() as int),
                forall|u: int| 0 <= u < rev@.len() ==> #[trigger] rev@[u] == ns[n - 1 - u],
            decreases nodes@.len(),
        {
            let ghost len = nodes@.len();
            let x = nodes.pop().unwrap();
            proof {
                assert(x == ns[len - 1]);
                assert(nodes@ =~= ns.subrange(0, nodes@.len() as int));
            }
            rev.push(x);
        }
        let mut objects: Vec<OwnedObject<I>> = Vec::new();
        let mut t: usize = 0;
        while t < n
            invariant
                ns.len() == n,
                t <= n,
                rev@.len() == n - t,
                forall|u: int| 0 <= u < rev@.len() ==> #[trigger] rev@[u] == ns[n - 1 - u],
                objects@.len() == t,
                forall|q: int| 0 <= q < t ==> (#[trigger] objects@[q]).index == q && objects@[q]@ == part_view(ns[q]),
            decreases n - t,
        {
            let ghost rb = rev@;
            let (object, operands, attributes) = rev.pop().unwrap();
            proof {
                assert(rb[rb.len() - 1] == ns[t as int]);
                assert forall|u: int| 0 <= u < rev@.len() implies #[trigger] rev@[u] == ns[n - 1 - u] by {
                    assert(rev@[u] == rb[u]);
                }
            }
            let o = OwnedObject { object, operands, attributes, index: t };
            proof {
                assert(o@ == part_view(ns[t as int]));
            }
            objects.push(o);
            t = t + 1;
        }
        let nl = Netlist { name, objects, outputs, epoch: 0 };
        proof {
            assert(nl@.nodes =~= v.nodes) by {
                assert forall|q: int| 0 <= q < n implies #[trigger] nl@.nodes[q] == v.nodes[q] by {
                    assert(nl.objects@[q]@ == part_view(ns[q]));
                }
            }
            assert(nl@ == v);
        }
        Ok(nl)
    }
}
} // verus!
