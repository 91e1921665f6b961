//! Attributes and parameters for nets and nodes (gates) in the netlist.

use vstd::prelude::*;
use vstd::string::*;
use crate::text::{decimal, usize_to_decimal, owned};
use crate::circuit::Instantiable;
use crate::netlist::{NetRef, Netlist, NetlistView};

verus! {

/// The key of a Verilog attribute, like `dont_touch` in `(* dont_touch *)`
pub type AttributeKey = String;

/// A Verilog attribute can be assigned a string value: `(* dont_touch = "true" *)`
pub type AttributeValue = Option<String>;

/// The abstract value of an optional attribute value.
pub open spec fn value_view(v: Option<String>) -> Option<Seq<char>> {
    match v {
        Some(s) => Some(s@),
        None => None,
    }
}

/// An attribute can add information to instances and wires in string form, like 'dont_touch'
#[derive(Debug)]
pub struct Attribute {
    k: AttributeKey,
    v: AttributeValue,
}

impl View for Attribute {
    type V = (Seq<char>, Option<Seq<char>>);

    closed spec fn view(&self) -> (Seq<char>, Option<Seq<char>>) {
        (self.k@, value_view(self.v))
    }
}

/// Clones an optional attribute value.
pub fn clone_value(v: &AttributeValue) -> (r: AttributeValue)
    ensures
        value_view(r) == value_view(*v),
{
    match v {
        Some(s) => Some(s.clone()),
        None => None,
    }
}

impl Clone for Attribute {
    fn clone(&self) -> (r: Self)
        ensures
            r@ == self@,
    {
        Attribute { k: self.k.clone(), v: clone_value(&self.v) }
    }
}

impl PartialEq for Attribute {
    fn eq(&self, other: &Attribute) -> (r: bool)
        ensures
            r == (self@ == other@),
    {
        if !(self.k == other.k) {
            return false;
        }
        match &self.v {
            Some(a) => match &other.v {
                Some(b) => a.eq(b),
                None => false,
            },
            None => other.v.is_none(),
        }
    }
}

impl Eq for Attribute {}

impl vstd::std_specs::cmp::PartialEqSpecImpl for Attribute {
    open spec fn obeys_eq_spec() -> bool {
        true
    }

    open spec fn eq_spec(&self, other: &Attribute) -> bool {
        self@ == other@
    }
}

impl Attribute {
    /// Create a new attribute pair
    pub fn new(k: AttributeKey, v: AttributeValue) -> (r: Self)
        ensures
            r@ == (k@, value_view(v)),
    {
        Attribute { k, v }
    }

    /// Get the key of the attribute
    pub fn key(&self) -> (r: &AttributeKey)
        ensures
            r@ == self@.0,
    {
        &self.k
    }

    /// Get the value of the attribute
    pub fn value(&self) -> (r: &AttributeValue)
        ensures
            value_view(*r) == self@.1,
    {
        &self.v
    }

    /// Map attribute key-value pairs to attributes, in order
    pub fn from_pairs(pairs: Vec<(AttributeKey, AttributeValue)>) -> (r: Vec<Self>)
        ensures
            r@.len() == pairs@.len(),
            forall|i: int|
                0 <= i < pairs@.len() ==> #[trigger] r@[i]@ == (
                    pairs@[i].0@,
                    value_view(pairs@[i].1),
                ),
    {
        let mut r: Vec<Self> = Vec::new();
        let mut i: usize = 0;
        while i < pairs.len()
            invariant
                i <= pairs@.len(),
                r@.len() == i,
                forall|j: int|
                    0 <= j < i ==> #[trigger] r@[j]@ == (pairs@[j].0@, value_view(pairs@[j].1)),
            decreases pairs@.len() - i,
        {
            let (k, v) = (pairs[i].0.clone(), clone_value(&pairs[i].1));
            r.push(Attribute::new(k, v));
            i = i + 1;
        }
        r
    }
}

/// The decimal text of a signed integer.
pub open spec fn signed_decimal(i: int) -> Seq<char> {
    if i < 0 {
        seq!['-'] + decimal((-i) as nat)
    } else {
        decimal(i as nat)
    }
}

/// Bits written most significant (last) first.
pub open spec fn msb_first(bits: Seq<bool>) -> Seq<char>
    decreases bits.len(),
{
    if bits.len() == 0 {
        Seq::empty()
    } else {
        msb_first(bits.subrange(1, bits.len() as int)) + seq![if bits[0] { '1' } else { '0' }]
    }
}

/// A vector of bits, kept in bitvec's `BitVec`.
#[verifier::external_body]
#[derive(Debug)]
pub struct Bits {
    bits: bitvec::vec::BitVec,
}

/// The bits that a bit vector holds, bit 0 first.
pub uninterp spec fn bits_of(b: Bits) -> Seq<bool>;

/// Relies on bitvec's `FromIterator<bool>` for `BitVec`: the bits are
/// collected in order.
#[verifier::external_body]
fn bits_collect(v: Vec<bool>) -> (r: Bits)
    ensures
        bits_of(r) == v@,
{
    Bits { bits: v.into_iter().collect() }
}

/// Relies on bitvec's `BitVec::len`: the number of bits held.
#[verifier::external_body]
fn bits_len(b: &Bits) -> (r: usize)
    ensures
        r == bits_of(*b).len(),
{
    b.bits.len()
}

/// Relies on bitvec's `Index<usize>` for bit slices: bit `i`, which must
/// exist (indexing past the end panics).
#[verifier::external_body]
fn bits_get(b: &Bits, i: usize) -> (r: bool)
    requires
        i < bits_of(*b).len(),
    ensures
        r == bits_of(*b)[i as int],
{
    b.bits[i]
}

impl Bits {
    /// A bit vector holding `v`, bit 0 first.
    pub fn from_bools(v: Vec<bool>) -> (r: Bits)
        ensures
            bits_of(r) == v@,
    {
        bits_collect(v)
    }

    /// The number of bits.
    pub fn len(&self) -> (r: usize)
        ensures
            r == bits_of(*self).len(),
    {
        bits_len(self)
    }

    /// Bit `i`.
    pub fn get(&self, i: usize) -> (r: bool)
        requires
            i < bits_of(*self).len(),
        ensures
            r == bits_of(*self)[i as int],
    {
        bits_get(self, i)
    }
}

/// A value that a primitive's parameter can take
#[derive(Debug)]
pub enum Parameter {
    /// An integer parameter
    Integer(i32),
    /// A bit vector parameter, like for a truth table; bit 0 is the least significant
    BitVec(Bits),
}

/// The Verilog text of a parameter value.
pub open spec fn parameter_text(p: Parameter) -> Seq<char> {
    match p {
        Parameter::Integer(i) => signed_decimal(i as int),
        Parameter::BitVec(bits) => decimal(bits_of(bits).len()) + seq!['\'', 'b'] + msb_first(bits_of(bits)),
    }
}

impl Parameter {
    /// Renders the value as Verilog text: an integer in decimal, a bit
    /// vector as `<width>'b<bits, most significant first>`.
    pub fn emit(&self) -> (r: String)
        ensures
            r@ == parameter_text(*self),
    {
        match self {
            Parameter::Integer(i) => {
                if *i < 0 {
                    let m: u32 = if *i == i32::MIN {
                        2147483648u32
                    } else {
                        (-*i) as u32
                    };
                    let d = usize_to_decimal(m as usize);
                    proof {
                        reveal_strlit("-");
                    }
                    let r = owned("-").concat(d.as_str());
                    assert(r@ =~= parameter_text(*self));
                    r
                } else {
                    usize_to_decimal(*i as usize)
                }
            },
            Parameter::BitVec(bv) => {
                let ghost bits = bits_of(*bv);
                let n = bits_len(bv);
                let mut r = usize_to_decimal(n);
                proof {
                    reveal_strlit("'b");
                }
                r = r.concat("'b");
                let mut i: usize = n;
                while i > 0
                    invariant
                        bits == bits_of(*bv),
                        n == bits.len(),
                        i <= n,
                        r@ == decimal(n as nat) + seq!['\'', 'b'] + msb_first(bits.subrange(i as int, n as int)),
                    decreases i,
                {
                    let ghost before = bits.subrange(i as int, n as int);
                    i = i - 1;
                    proof {
                        reveal_strlit("1");
                        reveal_strlit("0");
                        let t = bits.subrange(i as int, n as int);
                        assert(t.subrange(1, t.len() as int) =~= before);
                    }
                    if bits_get(bv, i) {
                        r = r.concat("1");
                    } else {
                        r = r.concat("0");
                    }
                    assert(r@ =~= decimal(n as nat) + seq!['\'', 'b'] + msb_first(bits.subrange(i as int, n as int)));
                }
                assert(bits.subrange(0, n as int) =~= bits);
                r
            },
        }
    }
}

/// Some attribute in `attrs` has a key among `keys`.
pub open spec fn has_any_key(attrs: Seq<(Seq<char>, Option<Seq<char>>)>, keys: Seq<Seq<char>>) -> bool {
    exists|a: int| 0 <= a < attrs.len() && keys.contains(#[trigger] attrs[a].0)
}

/// The handles of the first `n` nodes of `v` that carry an attribute keyed
/// by one of `keys`, in store order.
pub open spec fn nodes_with_keys<I>(v: NetlistView<I>, keys: Seq<Seq<char>>, n: int) -> Seq<(nat, u64)>
    decreases n,
{
    if n <= 0 {
        Seq::empty()
    } else if has_any_key(v.nodes[n - 1].attributes, keys) {
        nodes_with_keys(v, keys, n - 1).push(((n - 1) as nat, v.epoch))
    } else {
        nodes_with_keys(v, keys, n - 1)
    }
}

/// The views of a list of keys.
pub open spec fn key_views(keys: Seq<AttributeKey>) -> Seq<Seq<char>> {
    keys.map_values(|k: AttributeKey| k@)
}

/// A selection of the nodes of a netlist that carry some attribute, like
/// `dont_touch`.
#[derive(Debug)]
pub struct AttributeFilter {
    /// The keys to filter by
    keys: Vec<AttributeKey>,
    /// The selected nodes, in store order
    nodes: Vec<NetRef>,
}

impl View for AttributeFilter {
    type V = (Seq<Seq<char>>, Seq<(nat, u64)>);

    closed spec fn view(&self) -> (Seq<Seq<char>>, Seq<(nat, u64)>) {
        (key_views(self.keys@), self.nodes@.map_values(|n: NetRef| n@))
    }
}

fn key_in(keys: &Vec<AttributeKey>, k: &AttributeKey) -> (r: bool)
    ensures
        r == key_views(keys@).contains(k@),
{
    let mut q: usize = 0;
    while q < keys.len()
        invariant
            q <= keys@.len(),
            forall|x: int| 0 <= x < q ==> keys@[x]@ != k@,
        decreases keys@.len() - q,
    {
        if keys[q] == *k {
            proof {
                assert(key_views(keys@)[q as int] == k@);
            }
            return true;
        }
        q = q + 1;
    }
    proof {
        if key_views(keys@).contains(k@) {
            let x = choose|x: int| 0 <= x < key_views(keys@).len() && key_views(keys@)[x] == k@;
            assert(keys@[x]@ == k@);
        }
    }
    false
}

impl AttributeFilter {
    /// Selects the nodes of `netlist` that carry an attribute keyed by one of `keys`.
    pub fn new<I: Instantiable>(netlist: &Netlist<I>, keys: Vec<AttributeKey>) -> (r: Self)
        ensures
            r@.0 == key_views(keys@),
            r@.1 == nodes_with_keys(netlist@, key_views(keys@), netlist@.nodes.len() as int),
    {
        let objs = netlist.objects();
        let mut nodes: Vec<NetRef> = Vec::new();
        let mut i: usize = 0;
        proof {
            assert(nodes@.map_values(|n: NetRef| n@) =~= nodes_with_keys(netlist@, key_views(keys@), 0));
        }
        while i < objs.len()
            invariant
                objs@.len() == netlist@.nodes.len(),
                forall|q: int| 0 <= q < objs@.len() ==> (#[trigger] objs@[q])@ == (q as nat, netlist@.epoch),
                i <= objs@.len(),
                nodes@.map_values(|n: NetRef| n@) == nodes_with_keys(netlist@, key_views(keys@), i as int),
            decreases objs@.len() - i,
        {
            let attrs = objs[i].attributes(netlist);
            let ghost av = attrs@.map_values(|a: Attribute| a@);
            let mut found = false;
            let mut a: usize = 0;
            while a < attrs.len()
                invariant
                    av == attrs@.map_values(|a: Attribute| a@),
                    a <= attrs@.len(),
                    found == exists|x: int| 0 <= x < a && key_views(keys@).contains(#[trigger] av[x].0),
                decreases attrs@.len() - a,
            {
                if key_in(&keys, attrs[a].key()) {
                    proof {
                        assert(av[a as int].0 == attrs@[a as int]@.0);
                    }
                    found = true;
                } else {
                    proof {
                        assert(av[a as int].0 == attrs@[a as int]@.0);
                    }
                }
                a = a + 1;
            }
            if found {
                nodes.push(objs[i]);
                proof {
                    assert(nodes@.map_values(|n: NetRef| n@) =~= nodes_with_keys(netlist@, key_views(keys@), i + 1));
                }
            }
            i = i + 1;
        }
        AttributeFilter { keys, nodes }
    }

    /// Returns `true` if `n` is one of the selected nodes.
    pub fn has(&self, n: &NetRef) -> (r: bool)
        ensures
            r == self@.1.contains(n@),
    {
        let mut q: usize = 0;
        while q < self.nodes.len()
            invariant
                q <= self.nodes@.len(),
                forall|x: int| 0 <= x < q ==> self.nodes@[x]@ != n@,
            decreases self.nodes@.len() - q,
        {
            proof {
                crate::netlist::lemma_netref_eq(self.nodes@[q as int], *n);
            }
            if self.nodes[q] == *n {
                proof {
                    assert(self@.1[q as int] == n@);
                }
                return true;
            }
            q = q + 1;
        }
        proof {
            if self@.1.contains(n@) {
                let x = choose|x: int| 0 <= x < self@.1.len() && self@.1[x] == n@;
                assert(self.nodes@[x]@ == n@);
            }
        }
        false
    }

    /// Returns the keys used for filtering
    pub fn keys(&self) -> (r: &[AttributeKey])
        ensures
            key_views(r@) == self@.0,
    {
        self.keys.as_slice()
    }

    /// Returns the selected nodes, in store order
    pub fn nodes(&self) -> (r: Vec<NetRef>)
        ensures
            r@.map_values(|n: NetRef| n@) == self@.1,
    {
        self.nodes.clone()
    }
}

/// Selects the nodes of `netlist` that are marked `dont_touch`.
pub fn dont_touch_filter<I: Instantiable>(netlist: &Netlist<I>) -> (r: AttributeFilter)
    ensures
        r@.0 == seq!["dont_touch"@],
        r@.1 == nodes_with_keys(netlist@, seq!["dont_touch"@], netlist@.nodes.len() as int),
{
    let keys = vec![owned("dont_touch")];
    proof {
        assert(key_views(keys@) =~= seq!["dont_touch"@]);
    }
    AttributeFilter::new(netlist, keys)
}
} // verus!
