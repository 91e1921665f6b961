//! Types for the constructs found within a digital circuit: identifiers,
//! nets, the capability that primitives offer, and circuit objects.

use vstd::prelude::*;
use vstd::string::*;
use crate::attribute::{Parameter, parameter_text};
use crate::text::{decimal, usize_to_decimal, owned};

verus! {

/// Signals in a circuit can be binary, tri-state, or four-state.
#[derive(Debug, Clone, Copy, PartialEq, Eq, Structural, Hash)]
pub enum DataType {
    /// A logical 0 or 1
    TwoState,
    /// A logical 0, 1, or high-Z
    ThreeState,
    /// A logical 0, 1, high-Z, or unknown (X)
    FourState,
}

impl DataType {
    /// Returns the data type for bools (1'b0 and 1'b1)
    pub fn boolean() -> (r: Self)
        ensures
            r == DataType::TwoState,
    {
        DataType::TwoState
    }

    /// Returns the data type for tri-state signals (1'b0, 1'b1, and 1'bz)
    pub fn tristate() -> (r: Self)
        ensures
            r == DataType::ThreeState,
    {
        DataType::ThreeState
    }

    /// Returns the data type for four-state signals (1'b0, 1'b1, 1'bz, and 1'bx)
    pub fn fourstate() -> (r: Self)
        ensures
            r == DataType::FourState,
    {
        DataType::FourState
    }

    /// Returns the data type of SystemVerilog `logic`, which is four-state
    pub fn logic() -> (r: Self)
        ensures
            r == DataType::FourState,
    {
        DataType::FourState
    }
}

/// The type of identifier labelling a circuit node
#[derive(Debug, Clone, Copy, PartialEq, Eq, Structural, Hash)]
pub enum IdentifierType {
    /// A normal identifier
    Normal,
    /// An identifier that is part of a wire bus
    BitSlice(usize),
    /// An identifier that is escaped, as defined by Verilog
    Escaped,
}

/// The abstract value of an identifier: its name and its kind.
pub type IdentifierView = (Seq<char>, IdentifierType);

/// Characters that force an identifier to be escaped.
pub open spec fn is_escape_char(c: char) -> bool {
    c == '[' || c == ']' || c == ' ' || c == '\\' || c == '(' || c == ')' || c == ','
        || c == '+' || c == '-'
}

/// `s` holds a character that forces escaping.
pub open spec fn has_escape_char(s: Seq<char>) -> bool {
    exists|i: int| 0 <= i < s.len() && is_escape_char(#[trigger] s[i])
}

/// The identifier that a name normalizes to: a leading backslash marks an
/// escaped identifier (and is dropped), a special character makes it escaped,
/// and anything else is a normal identifier.
pub open spec fn identifier_of(s: Seq<char>) -> IdentifierView {
    if s.len() > 0 && s[0] == '\\' {
        (s.subrange(1, s.len() as int), IdentifierType::Escaped)
    } else if has_escape_char(s) {
        (s, IdentifierType::Escaped)
    } else {
        (s, IdentifierType::Normal)
    }
}

/// How an identifier is written in Verilog.
pub open spec fn emitted(id: IdentifierView) -> Seq<char> {
    match id.1 {
        IdentifierType::Normal => id.0,
        IdentifierType::BitSlice(index) => id.0 + seq!['['] + decimal(index as nat) + seq![']'],
        IdentifierType::Escaped => seq!['\\'] + id.0 + seq![' '],
    }
}

/// An identifier of a node in a circuit
#[derive(Debug, Hash)]
pub struct Identifier {
    /// The name of the identifier
    name: String,
    /// The type of identifier
    id_type: IdentifierType,
}

impl View for Identifier {
    type V = IdentifierView;

    closed spec fn view(&self) -> IdentifierView {
        (self.name@, self.id_type)
    }
}

impl Clone for Identifier {
    fn clone(&self) -> (r: Self)
        ensures
            r@ == self@,
    {
        Identifier { name: self.name.clone(), id_type: self.id_type }
    }
}

impl PartialEq for Identifier {
    fn eq(&self, other: &Identifier) -> (r: bool)
        ensures
            r == (self@ == other@),
    {
        self.name == other.name && self.id_type == other.id_type
    }
}

impl Eq for Identifier {}

impl vstd::std_specs::cmp::PartialEqSpecImpl for Identifier {
    open spec fn obeys_eq_spec() -> bool {
        true
    }

    open spec fn eq_spec(&self, other: &Identifier) -> bool {
        self@ == other@
    }
}

fn has_escape_char_exec(s: &str) -> (r: bool)
    ensures
        r == has_escape_char(s@),
{
    let n = s.unicode_len();
    let mut i: usize = 0;
    while i < n
        invariant
            n == s@.len(),
            i <= n,
            forall|j: int| 0 <= j < i ==> !is_escape_char(#[trigger] s@[j]),
        decreases n - i,
    {
        let c = s.get_char(i);
        if c == '[' || c == ']' || c == ' ' || c == '\\' || c == '(' || c == ')' || c == ','
            || c == '+' || c == '-' {
            assert(is_escape_char(s@[i as int]));
            return true;
        }
        i = i + 1;
    }
    false
}

impl Identifier {
    /// Creates a new identifier with the given name. A name starting with a
    /// backslash, or holding a character that Verilog cannot take in a plain
    /// identifier, becomes an escaped identifier.
    pub fn new(name: String) -> (r: Self)
        ensures
            r@ == identifier_of(name@),
    {
        let n = name.as_str().unicode_len();
        if n > 0 && name.as_str().get_char(0) == '\\' {
            let root = owned(name.as_str().substring_char(1, n));
            return Identifier { name: root, id_type: IdentifierType::Escaped };
        }
        if has_escape_char_exec(name.as_str()) {
            return Identifier { name, id_type: IdentifierType::Escaped };
        }
        Identifier { name, id_type: IdentifierType::Normal }
    }

    /// Creates the identifier of one bit of an escaped bus.
    pub fn new_escaped(name: String) -> (r: Self)
        ensures
            r@ == (name@, IdentifierType::Escaped),
    {
        Identifier { name, id_type: IdentifierType::Escaped }
    }

    /// Creates the identifier of bit `index` of the bus `name`.
    pub fn new_bit_slice(name: String, index: usize) -> (r: Self)
        ensures
            r@ == (name@, IdentifierType::BitSlice(index)),
    {
        Identifier { name, id_type: IdentifierType::BitSlice(index) }
    }

    /// Returns the name of the identifier
    pub fn get_name(&self) -> (r: &str)
        ensures
            r@ == self@.0,
    {
        self.name.as_str()
    }

    /// Returns the kind of the identifier
    pub fn get_type(&self) -> (r: IdentifierType)
        ensures
            r == self@.1,
    {
        self.id_type
    }

    /// Returns the bit index, if the identifier is a bit-slice
    pub fn get_bit_index(&self) -> (r: Option<usize>)
        ensures
            r == (match self@.1 {
                IdentifierType::BitSlice(index) => Some(index),
                _ => None,
            }),
    {
        match self.id_type {
            IdentifierType::BitSlice(index) => Some(index),
            _ => None,
        }
    }

    /// Returns `true` if the identifier is a slice of a wire bus
    pub fn is_sliced(&self) -> (r: bool)
        ensures
            r == self@.1 is BitSlice,
    {
        matches!(self.id_type, IdentifierType::BitSlice(_))
    }

    /// The identifier is escaped, as defined by Verilog
    pub fn is_escaped(&self) -> (r: bool)
        ensures
            r == self@.1 is Escaped,
    {
        matches!(self.id_type, IdentifierType::Escaped)
    }

    /// Emit the name as suitable for an HDL like Verilog. This takes into
    /// account bit-slicing and escaped identifiers.
    pub fn emit_name(&self) -> (r: String)
        ensures
            r@ == emitted(self@),
    {
        match self.id_type {
            IdentifierType::Normal => self.name.clone(),
            IdentifierType::BitSlice(index) => {
                let s = self.name.clone();
                let s = s.concat("[");
                let d = usize_to_decimal(index);
                let s = s.concat(d.as_str());
                let s = s.concat("]");
                proof {
                    reveal_strlit("[");
                    reveal_strlit("]");
                    assert(s@ =~= emitted(self@));
                }
                s
            },
            IdentifierType::Escaped => {
                let s = owned("\\");
                let s = s.concat(self.name.as_str());
                let s = s.concat(" ");
                proof {
                    reveal_strlit("\\");
                    reveal_strlit(" ");
                    assert(s@ =~= emitted(self@));
                }
                s
            },
        }
    }
}

impl From<&str> for Identifier {
    fn from(name: &str) -> (r: Self)
        ensures
            r@ == identifier_of(name@),
    {
        Identifier::new(owned(name))
    }
}

impl vstd::std_specs::convert::FromSpecImpl<&str> for Identifier {
    open spec fn obeys_from_spec() -> bool {
        false
    }

    open spec fn from_spec(v: &str) -> Identifier {
        arbitrary()
    }
}

impl From<String> for Identifier {
    fn from(name: String) -> (r: Self)
        ensures
            r@ == identifier_of(name@),
    {
        Identifier::new(name)
    }
}

impl vstd::std_specs::convert::FromSpecImpl<String> for Identifier {
    open spec fn obeys_from_spec() -> bool {
        false
    }

    open spec fn from_spec(v: String) -> Identifier {
        arbitrary()
    }
}

/// The abstract value of a net: its identifier and its data type.
pub type NetView = (IdentifierView, DataType);

/// A net in a circuit, which is identified with a name and data type.
#[derive(Debug, Hash)]
pub struct Net {
    identifier: Identifier,
    data_type: DataType,
}

impl View for Net {
    type V = NetView;

    closed spec fn view(&self) -> NetView {
        (self.identifier@, self.data_type)
    }
}

impl Clone for Net {
    fn clone(&self) -> (r: Self)
        ensures
            r@ == self@,
    {
        Net { identifier: self.identifier.clone(), data_type: self.data_type }
    }
}

impl PartialEq for Net {
    fn eq(&self, other: &Net) -> (r: bool)
        ensures
            r == (self@ == other@),
    {
        self.identifier == other.identifier && self.data_type == other.data_type
    }
}

impl Eq for Net {}

impl vstd::std_specs::cmp::PartialEqSpecImpl for Net {
    open spec fn obeys_eq_spec() -> bool {
        true
    }

    open spec fn eq_spec(&self, other: &Net) -> bool {
        self@ == other@
    }
}

/// The name of bit `i` of the escaped bus `name`: `name[i]`.
pub open spec fn bus_bit_name(name: Seq<char>, i: nat) -> Seq<char> {
    name + seq!['['] + decimal(i) + seq![']']
}

impl Net {
    /// Creates a new net with the given identifier and data type
    pub fn new(identifier: Identifier, data_type: DataType) -> (r: Self)
        ensures
            r@ == (identifier@, data_type),
    {
        Net { identifier, data_type }
    }

    /// Create a new net for SystemVerilog-like four-state logic
    pub fn new_logic(name: String) -> (r: Self)
        ensures
            r@ == (identifier_of(name@), DataType::FourState),
    {
        Net::new(Identifier::new(name), DataType::logic())
    }

    /// Create a wire bus as escaped SystemVerilog signals
    pub fn new_escaped_logic_bus(name: String, bw: usize) -> (r: Vec<Self>)
        ensures
            r@.len() == bw,
            forall|i: int|
                0 <= i < bw ==> #[trigger] r@[i]@ == (
                    (bus_bit_name(name@, i as nat), IdentifierType::Escaped),
                    DataType::FourState,
                ),
    {
        let mut vec: Vec<Self> = Vec::new();
        let mut i: usize = 0;
        while i < bw
            invariant
                i <= bw,
                vec@.len() == i,
                forall|j: int|
                    0 <= j < i ==> #[trigger] vec@[j]@ == (
                        (bus_bit_name(name@, j as nat), IdentifierType::Escaped),
                        DataType::FourState,
                    ),
            decreases bw - i,
        {
            let s = name.clone().concat("[");
            let d = usize_to_decimal(i);
            let s = s.concat(d.as_str());
            let s = s.concat("]");
            proof {
                reveal_strlit("[");
                reveal_strlit("]");
                assert(s@ =~= bus_bit_name(name@, i as nat));
            }
            vec.push(Net::new(Identifier::new_escaped(s), DataType::logic()));
            i = i + 1;
        }
        vec
    }

    /// Sets the identifier of the net
    pub fn set_identifier(&mut self, identifier: Identifier)
        ensures
            final(self)@ == (identifier@, old(self)@.1),
    {
        self.identifier = identifier;
    }

    /// Returns the full identifier to the net
    pub fn get_identifier(&self) -> (r: &Identifier)
        ensures
            r@ == self@.0,
    {
        &self.identifier
    }

    /// Returns the full identifier to the net, consuming the net
    pub fn take_identifier(self) -> (r: Identifier)
        ensures
            r@ == self@.0,
    {
        self.identifier
    }

    /// Returns the data type of the net
    pub fn get_type(&self) -> (r: &DataType)
        ensures
            *r == self@.1,
    {
        &self.data_type
    }

    /// Returns a net of the same type but with a different name, normalized
    /// as [Identifier::new] does
    pub fn with_name(&self, name: String) -> (r: Self)
        ensures
            r@ == (identifier_of(name@), self@.1),
    {
        Net::new(Identifier::new(name), self.data_type)
    }

    /// Returns a net of the same type but with the given identifier
    pub fn with_identifier(&self, identifier: Identifier) -> (r: Self)
        ensures
            r@ == (identifier@, self@.1),
    {
        Net::new(identifier, self.data_type)
    }

    /// Emits the identifier of the net as Verilog text.
    pub fn emit_name(&self) -> (r: String)
        ensures
            r@ == emitted(self@.0),
    {
        self.identifier.emit_name()
    }
}

impl From<&str> for Net {
    fn from(name: &str) -> (r: Self)
        ensures
            r@ == (identifier_of(name@), DataType::FourState),
    {
        Net::new_logic(owned(name))
    }
}

impl vstd::std_specs::convert::FromSpecImpl<&str> for Net {
    open spec fn obeys_from_spec() -> bool {
        false
    }

    open spec fn from_spec(v: &str) -> Net {
        arbitrary()
    }
}

/// The capability of a primitive in a digital circuit, such as a gate or
/// another component: a name, ordered input and output ports, and
/// parameters. The netlist only ever reads this shape.
pub trait Instantiable: Sized {
    /// The name of the primitive.
    spec fn spec_name(&self) -> IdentifierView;

    /// The input ports of the primitive, in order.
    spec fn spec_input_ports(&self) -> Seq<Net>;

    /// The output ports of the primitive, in order.
    spec fn spec_output_ports(&self) -> Seq<Net>;

    /// The parameters of the primitive: each name with the Verilog text of its value.
    spec fn spec_parameters(&self) -> Seq<(IdentifierView, Seq<char>)>;

    /// Returns the name of the primitive
    fn get_name(&self) -> (r: &Identifier)
        ensures
            r@ == self.spec_name(),
    ;

    /// Returns the input ports of the primitive
    fn get_input_ports(&self) -> (r: &[Net])
        ensures
            r@ == self.spec_input_ports(),
    ;

    /// Returns the output ports of the primitive
    fn get_output_ports(&self) -> (r: &[Net])
        ensures
            r@ == self.spec_output_ports(),
    ;

    /// Returns `true` if the type takes a parameter with this name.
    fn has_parameter(&self, id: &Identifier) -> (r: bool)
        ensures
            r == exists|i: int|
                0 <= i < self.spec_parameters().len() && #[trigger] self.spec_parameters()[i].0
                    == id@,
    ;

    /// Returns the parameter value for the given key, if it exists.
    fn get_parameter(&self, id: &Identifier) -> (r: Option<Parameter>)
        ensures
            r is Some <==> exists|i: int|
                0 <= i < self.spec_parameters().len() && #[trigger] self.spec_parameters()[i].0
                    == id@,
    ;

    /// Returns the parameters of the primitive, in order.
    fn parameters(&self) -> (r: Vec<(Identifier, Parameter)>)
        ensures
            r@.len() == self.spec_parameters().len(),
            forall|i: int|
                0 <= i < r@.len() ==> (#[trigger] r@[i]).0@ == self.spec_parameters()[i].0
                    && parameter_text(r@[i].1) == self.spec_parameters()[i].1,
    ;

    /// Returns `true` if the primitive is parameterized (has at least one parameter).
    fn is_parameterized(&self) -> (r: bool)
        ensures
            r == (self.spec_parameters().len() > 0),
    {
        self.parameters().len() > 0
    }

    /// Returns the output port at the given index.
    fn get_output_port(&self, index: usize) -> (r: &Net)
        requires
            index < self.spec_output_ports().len(),
        ensures
            *r == self.spec_output_ports()[index as int],
    {
        &self.get_output_ports()[index]
    }

    /// Returns the input port at the given index.
    fn get_input_port(&self, index: usize) -> (r: &Net)
        requires
            index < self.spec_input_ports().len(),
        ensures
            *r == self.spec_input_ports()[index as int],
    {
        &self.get_input_ports()[index]
    }
}

/// A circuit object: either a principal input net, or an instance of a
/// primitive with its output nets and instance name.
#[derive(Debug)]
pub enum Object<I> {
    /// A principal input to the circuit
    Input(Net),
    /// An instance of a module or primitive
    Instance(Vec<Net>, Identifier, I),
}

/// The nets that an object drives, in output order.
pub open spec fn object_nets<I>(o: Object<I>) -> Seq<Net> {
    match o {
        Object::Input(net) => seq![net],
        Object::Instance(nets, _, _) => nets@,
    }
}

impl<I: Instantiable> Object<I> {
    /// Returns the net driven by this object, which must drive exactly one.
    pub fn get_single_net(&self) -> (r: &Net)
        requires
            object_nets(*self).len() == 1,
        ensures
            *r == object_nets(*self)[0],
    {
        match self {
            Object::Input(net) => net,
            Object::Instance(nets, _, _) => &nets[0],
        }
    }

    /// Returns the net driven by this object at the index
    pub fn get_net(&self, index: usize) -> (r: &Net)
        requires
            index < object_nets(*self).len(),
        ensures
            *r == object_nets(*self)[index as int],
    {
        match self {
            Object::Input(net) => net,
            Object::Instance(nets, _, _) => &nets[index],
        }
    }

    /// Returns the instance within the object, if the object represents one
    pub fn get_instance_type(&self) -> (r: Option<&I>)
        ensures
            match *self {
                Object::Input(_) => r is None,
                Object::Instance(_, _, inst) => r == Some(&inst),
            },
    {
        match self {
            Object::Input(_) => None,
            Object::Instance(_, _, instance) => Some(instance),
        }
    }

    /// Returns copies of all the nets driven at this circuit node.
    pub fn get_nets(&self) -> (r: Vec<Net>)
        ensures
            r@.len() == object_nets(*self).len(),
            forall|i: int| 0 <= i < r@.len() ==> (#[trigger] r@[i])@ == object_nets(*self)[i]@,
    {
        match self {
            Object::Input(net) => vec![net.clone()],
            Object::Instance(nets, _, _) => clone_nets(nets),
        }
    }
}

/// Copies a list of nets.
pub fn clone_nets(nets: &Vec<Net>) -> (r: Vec<Net>)
    ensures
        r@.len() == nets@.len(),
        forall|i: int| 0 <= i < r@.len() ==> (#[trigger] r@[i])@ == nets@[i]@,
{
    let mut r: Vec<Net> = Vec::new();
    let mut i: usize = 0;
    while i < nets.len()
        invariant
            i <= nets@.len(),
            r@.len() == i,
            forall|j: int| 0 <= j < i ==> (#[trigger] r@[j])@ == nets@[j]@,
        decreases nets@.len() - i,
    {
        r.push(nets[i].clone());
        i = i + 1;
    }
    r
}

} // verus!
