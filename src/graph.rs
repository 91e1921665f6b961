//! Analyses of a netlist: the fan-out table and combinational depth. An
//! analysis is a snapshot; any later change to the netlist makes it stale.

use vstd::prelude::*;
use crate::circuit::{Instantiable, Net, NetView};
use crate::netlist::{
    Connection, NetRef, Netlist, NetlistError, NetlistView, conns, is_input_at, lemma_conns_valid, lemma_netref_eq,
    nets_at, op_root, valid_driven, valid_ref,
};

verus! {

/// A wire as the fan-out table records it: the value of the driving net,
/// the driving node and the consuming node.
pub type FanEdge = (NetView, (nat, u64), (nat, u64));

/// The wires of `v`, in connection order.
pub open spec fn fan_edges<I>(v: NetlistView<I>) -> Seq<FanEdge> {
    conns(v, v.nodes.len() as int).map_values(
        |c: ((nat, nat, u64), (nat, nat, u64))| (nets_at(v, c.0.0 as int)[c.0.1 as int]@, (c.0.0, c.0.2), (c.1.0, c.1.2)),
    )
}

/// The nets of the first `k` top-level outputs: each output's driving net
/// followed by the net it is bound to.
pub open spec fn output_nets<I>(v: NetlistView<I>, k: int) -> Seq<NetView>
    decreases k,
{
    if k <= 0 {
        Seq::empty()
    } else {
        let op = v.outputs[k - 1].0;
        output_nets(v, k - 1).push(nets_at(v, op_root(op) as int)[crate::netlist::op_secondary(op) as int]@).push(v.outputs[k - 1].1)
    }
}

/// The consumers of the net `n`, in wire order.
pub open spec fn net_users(edges: Seq<FanEdge>, n: NetView) -> Seq<(nat, u64)>
    decreases edges.len(),
{
    if edges.len() == 0 {
        Seq::empty()
    } else if edges.last().0 == n {
        net_users(edges.drop_last(), n).push(edges.last().2)
    } else {
        net_users(edges.drop_last(), n)
    }
}

/// The consumers of the node `d`, in wire order.
pub open spec fn node_users(edges: Seq<FanEdge>, d: (nat, u64)) -> Seq<(nat, u64)>
    decreases edges.len(),
{
    if edges.len() == 0 {
        Seq::empty()
    } else if edges.last().1 == d {
        node_users(edges.drop_last(), d).push(edges.last().2)
    } else {
        node_users(edges.drop_last(), d)
    }
}

/// A table of which nodes use each net and each node, and which nets are
/// top-level outputs.
#[derive(Debug)]
pub struct FanOutTable {
    /// Each wire: the driving net, the driving node, the consuming node
    edges: Vec<(Net, NetRef, NetRef)>,
    /// The driving and the bound net of each top-level output
    output_nets: Vec<Net>,
}

impl View for FanOutTable {
    type V = (Seq<FanEdge>, Seq<NetView>);

    closed spec fn view(&self) -> (Seq<FanEdge>, Seq<NetView>) {
        (
            self.edges@.map_values(|e: (Net, NetRef, NetRef)| (e.0@, e.1@, e.2@)),
            self.output_nets@.map_values(|n: Net| n@),
        )
    }
}

impl FanOutTable {
    /// Builds the table from the current state of `netlist`; this never fails.
    pub fn build<I: Instantiable>(netlist: &Netlist<I>) -> (r: Result<Self, NetlistError>)
        requires
            netlist.wf(),
        ensures
            r matches Ok(t) && t@.0 == fan_edges(netlist@) && t@.1 == output_nets(netlist@, netlist@.outputs.len() as int),
    {
        let cs: Vec<Connection> = netlist.connections();
        let ghost cv = conns(netlist@, netlist@.nodes.len() as int);
        proof {
            netlist.lemma_wf_view();
            lemma_conns_valid(netlist@, netlist@.nodes.len() as int);
        }
        let mut edges: Vec<(Net, NetRef, NetRef)> = Vec::new();
        let mut k: usize = 0;
        while k < cs.len()
            invariant
                netlist.wf(),
                cs@.map_values(|c: Connection| c@) == cv,
                cv == conns(netlist@, netlist@.nodes.len() as int),
                forall|q: int| 0 <= q < cv.len() ==> valid_driven(netlist@, (#[trigger] cv[q]).0),
                k <= cs@.len(),
                edges@.map_values(|e: (Net, NetRef, NetRef)| (e.0@, e.1@, e.2@)) == fan_edges(netlist@).subrange(0, k as int),
            decreases cs@.len() - k,
        {
            let c = &cs[k];
            proof {
                assert(c@ == cv[k as int]);
            }
            let ghost before = edges@;
            let n = c.net(netlist);
            let s = c.src().unwrap();
            let t = c.target().unwrap();
            proof {
                let cc = cv[k as int];
                assert(n@ == nets_at(netlist@, cc.0.0 as int)[cc.0.1 as int]@);
                assert(s@ == (cc.0.0, cc.0.2));
                assert(t@ == (cc.1.0, cc.1.2));
                assert(fan_edges(netlist@)[k as int] == (nets_at(netlist@, cc.0.0 as int)[cc.0.1 as int]@, (cc.0.0, cc.0.2), (cc.1.0, cc.1.2)));
            }
            let ghost nst = (n, s, t);
            proof {
                assert(before.map_values(|e: (Net, NetRef, NetRef)| (e.0@, e.1@, e.2@)).len() == k);
                assert(before.len() == k);
            }
            edges.push((n, s, t));
            proof {
                assert(edges@ == before.push(nst));
                let e = edges@[k as int];
                assert(e == nst);
                assert((e.0@, e.1@, e.2@) == fan_edges(netlist@)[k as int]);
                assert(edges@.map_values(|e: (Net, NetRef, NetRef)| (e.0@, e.1@, e.2@)) =~= fan_edges(netlist@).subrange(0, k + 1));
            }
            k = k + 1;
        }
        proof {
            assert(fan_edges(netlist@).subrange(0, cs@.len() as int) =~= fan_edges(netlist@));
        }
        let outs = netlist.outputs();
        let mut nets: Vec<Net> = Vec::new();
        let mut k: usize = 0;
        proof {
            assert(nets@.map_values(|n: Net| n@) =~= output_nets(netlist@, 0));
        }
        while k < outs.len()
            invariant
                netlist.wf(),
                outs@.len() == netlist@.outputs.len(),
                forall|q: int| 0 <= q < outs@.len() ==> (#[trigger] outs@[q]).0@ == (op_root(netlist@.outputs[q].0), crate::netlist::op_secondary(netlist@.outputs[q].0), netlist@.epoch)
                    && outs@[q].1@ == netlist@.outputs[q].1,
                k <= outs@.len(),
                nets@.map_values(|n: Net| n@) == output_nets(netlist@, k as int),
            decreases outs@.len() - k,
        {
            proof {
                netlist.lemma_output_valid(k as int);
            }
            let d = outs[k].0;
            nets.push(d.as_net(netlist).clone());
            nets.push(outs[k].1.clone());
            proof {
                assert(nets@.map_values(|n: Net| n@) =~= output_nets(netlist@, k + 1));
            }
            k = k + 1;
        }
        Ok(FanOutTable { edges, output_nets: nets })
    }

    /// Returns the nodes that use `net`, one per wire, in wire order.
    pub fn get_net_users(&self, net: &Net) -> (r: Vec<NetRef>)
        ensures
            r@.map_values(|x: NetRef| x@) == net_users(self@.0, net@),
    {
        let mut r: Vec<NetRef> = Vec::new();
        let mut k: usize = 0;
        proof {
            assert(self@.0.subrange(0, 0) =~= Seq::<FanEdge>::empty());
            assert(r@.map_values(|x: NetRef| x@) =~= Seq::<(nat, u64)>::empty());
        }
        while k < self.edges.len()
            invariant
                k <= self@.0.len(),
                self@.0.len() == self.edges@.len(),
                r@.map_values(|x: NetRef| x@) == net_users(self@.0.subrange(0, k as int), net@),
            decreases self@.0.len() - k,
        {
            proof {
                assert(self@.0.subrange(0, k + 1).drop_last() =~= self@.0.subrange(0, k as int));
                assert(self@.0[k as int].0 == self.edges@[k as int].0@);
            }
            if self.edges[k].0 == *net {
                r.push(self.edges[k].2);
                proof {
                    assert(r@.map_values(|x: NetRef| x@) =~= net_users(self@.0.subrange(0, k as int), net@).push(self@.0[k as int].2));
                }
            }
            k = k + 1;
        }
        proof {
            assert(self@.0.subrange(0, self@.0.len() as int) =~= self@.0);
        }
        r
    }

    /// Returns the nodes that use an output of `node`, one per wire, in wire order.
    pub fn get_node_users(&self, node: &NetRef) -> (r: Vec<NetRef>)
        ensures
            r@.map_values(|x: NetRef| x@) == node_users(self@.0, node@),
    {
        let mut r: Vec<NetRef> = Vec::new();
        let mut k: usize = 0;
        proof {
            assert(self@.0.subrange(0, 0) =~= Seq::<FanEdge>::empty());
            assert(r@.map_values(|x: NetRef| x@) =~= Seq::<(nat, u64)>::empty());
        }
        while k < self.edges.len()
            invariant
                k <= self@.0.len(),
                self@.0.len() == self.edges@.len(),
                r@.map_values(|x: NetRef| x@) == node_users(self@.0.subrange(0, k as int), node@),
            decreases self@.0.len() - k,
        {
            proof {
                assert(self@.0.subrange(0, k + 1).drop_last() =~= self@.0.subrange(0, k as int));
                assert(self@.0[k as int].1 == self.edges@[k as int].1@);
                lemma_netref_eq(self.edges@[k as int].1, *node);
            }
            if self.edges[k].1 == *node {
                r.push(self.edges[k].2);
                proof {
                    assert(r@.map_values(|x: NetRef| x@) =~= node_users(self@.0.subrange(0, k as int), node@).push(self@.0[k as int].2));
                }
            }
            k = k + 1;
        }
        proof {
            assert(self@.0.subrange(0, self@.0.len() as int) =~= self@.0);
        }
        r
    }

    /// Returns `true` if some wire carries `net`, or `net` is a top-level
    /// output (as the driving net or as the bound net).
    pub fn net_has_uses(&self, net: &Net) -> (r: bool)
        ensures
            r == (net_users(self@.0, net@).len() > 0 || self@.1.contains(net@)),
    {
        let users = self.get_net_users(net);
        if users.len() > 0 {
            return true;
        }
        let mut k: usize = 0;
        while k < self.output_nets.len()
            invariant
                k <= self@.1.len(),
                self@.1.len() == self.output_nets@.len(),
                forall|q: int| 0 <= q < k ==> self@.1[q] != net@,
            decreases self@.1.len() - k,
        {
            proof {
                assert(self@.1[k as int] == self.output_nets@[k as int]@);
            }
            if self.output_nets[k] == *net {
                proof {
                    assert(self@.1[k as int] == net@);
                }
                return true;
            }
            k = k + 1;
        }
        false
    }
}


/// The combinational depth of node `x` explored to `k` levels: 0 for a
/// principal input; for an instance, one more than the deepest of its
/// drivers, where an unconnected slot counts as 0. On an acyclic netlist
/// this is the longest-path depth once `k` reaches the number of nodes;
/// on a cycle it keeps growing with `k`.
pub open spec fn cdepth<I>(v: NetlistView<I>, x: int, k: nat) -> nat
    decreases k, 0int,
{
    if is_input_at(v, x) {
        0
    } else if k == 0 {
        1
    } else {
        1 + max_slots(v, x, v.nodes[x].operands.len() as int, (k - 1) as nat)
    }
}

/// The deepest of the drivers of slots `0..m` of node `x`, explored to `k` levels.
pub open spec fn max_slots<I>(v: NetlistView<I>, x: int, m: int, k: nat) -> nat
    decreases k, m,
{
    if m <= 0 {
        0
    } else {
        let rest = max_slots(v, x, m - 1, k);
        let here = match v.nodes[x].operands[m - 1] {
            Some(op) => cdepth(v, op_root(op) as int, k),
            None => 0,
        };
        if rest >= here {
            rest
        } else {
            here
        }
    }
}

/// The combinational depth of node `x`: defined when exploring as many
/// levels as there are nodes does not exceed that count.
pub open spec fn comb_depth<I>(v: NetlistView<I>, x: int) -> Option<nat> {
    let n = v.nodes.len();
    if cdepth(v, x, n) <= n {
        Some(cdepth(v, x, n))
    } else {
        None
    }
}

/// Some top-level output is driven from a combinational cycle.
pub open spec fn output_on_cycle<I>(v: NetlistView<I>) -> bool {
    exists|k: int| 0 <= k < v.outputs.len() && comb_depth(v, op_root((#[trigger] v.outputs[k]).0) as int) is None
}

/// The largest defined depth among the first `n` of `depths`, or 0.
pub open spec fn max_finite(depths: Seq<usize>, n: int, bound: nat) -> nat
    decreases n,
{
    if n <= 0 {
        0
    } else {
        let rest = max_finite(depths, n - 1, bound);
        let d = depths[n - 1] as nat;
        if d <= bound && d > rest {
            d
        } else {
            rest
        }
    }
}

/// Explored depths grow by at most one level per level.
pub proof fn lemma_cdepth_bound<I>(v: NetlistView<I>, x: int, k: nat)
    ensures
        cdepth(v, x, k) <= k + 1,
    decreases k, 0int,
{
    if !is_input_at(v, x) && k > 0 {
        lemma_max_slots_bound(v, x, v.nodes[x].operands.len() as int, (k - 1) as nat);
    }
}

/// The deepest driver explored to `k` levels is at most `k + 1` deep.
pub proof fn lemma_max_slots_bound<I>(v: NetlistView<I>, x: int, m: int, k: nat)
    ensures
        max_slots(v, x, m, k) <= k + 1,
    decreases k, m,
{
    if m > 0 {
        lemma_max_slots_bound(v, x, m - 1, k);
        match v.nodes[x].operands[m - 1] {
            Some(op) => lemma_cdepth_bound(v, op_root(op) as int, k),
            None => {},
        }
    }
}

/// Depths explored to `k` and to `j` levels agree at a node when they
/// agree at every node one level shallower.
pub proof fn lemma_max_slots_congruent<I: Instantiable>(v: NetlistView<I>, x: int, m: int, k: nat, j: nat)
    requires
        crate::netlist::view_wf(v),
        0 <= x < v.nodes.len(),
        m <= v.nodes[x].operands.len(),
        forall|y: int| 0 <= y < v.nodes.len() ==> #[trigger] cdepth(v, y, k) == cdepth(v, y, j),
    ensures
        max_slots(v, x, m, k) == max_slots(v, x, m, j),
    decreases m,
{
    if m > 0 {
        lemma_max_slots_congruent(v, x, m - 1, k, j);
        match v.nodes[x].operands[m - 1] {
            Some(op) => {
                assert(v.nodes[x].operands[m - 1] is Some);
                assert(crate::netlist::valid_operand(v, op));
                assert(cdepth(v, op_root(op) as int, k) == cdepth(v, op_root(op) as int, j));
            },
            None => {},
        }
    }
}

/// Once one more level changes no depth, no further level does.
pub proof fn lemma_cdepth_fixpoint<I: Instantiable>(v: NetlistView<I>, k: nat, m: nat)
    requires
        crate::netlist::view_wf(v),
        k <= m,
        forall|y: int| 0 <= y < v.nodes.len() ==> #[trigger] cdepth(v, y, k + 1) == cdepth(v, y, k),
    ensures
        forall|y: int| 0 <= y < v.nodes.len() ==> #[trigger] cdepth(v, y, m) == cdepth(v, y, k),
    decreases m - k,
{
    if m > k {
        lemma_cdepth_fixpoint(v, k, (m - 1) as nat);
        assert forall|y: int| 0 <= y < v.nodes.len() implies #[trigger] cdepth(v, y, m) == cdepth(v, y, k) by {
            if !is_input_at(v, y) {
                lemma_max_slots_congruent(v, y, v.nodes[y].operands.len() as int, (m - 1) as nat, k);
                assert(cdepth(v, y, m) == cdepth(v, y, k + 1));
            }
        }
    }
}

/// A logic-level analysis: the combinational depth of every node, built
/// only when no top-level output is driven from a combinational cycle.
#[derive(Debug)]
pub struct SimpleCombDepth {
    /// The explored depth of each node
    depths: Vec<usize>,
    /// The largest defined depth
    max_depth: usize,
    /// The layout epoch of the netlist the analysis was built from
    epoch: u64,
}

impl View for SimpleCombDepth {
    type V = (Seq<usize>, usize, u64);

    closed spec fn view(&self) -> (Seq<usize>, usize, u64) {
        (self.depths@, self.max_depth, self.epoch)
    }
}

impl SimpleCombDepth {
    /// The depths one level deeper than `cur`.
    #[verifier::spinoff_prover]
    fn deepen<I: Instantiable>(netlist: &Netlist<I>, cur: &Vec<usize>, Ghost(k): Ghost<nat>) -> (r: Vec<usize>)
        requires
            netlist.wf(),
            k < netlist@.nodes.len(),
            netlist@.nodes.len() < usize::MAX,
            cur@.len() == netlist@.nodes.len(),
            forall|x: int| 0 <= x < cur@.len() ==> #[trigger] cur@[x] == cdepth(netlist@, x, k),
        ensures
            r@.len() == cur@.len(),
            forall|x: int| 0 <= x < r@.len() ==> #[trigger] r@[x] == cdepth(netlist@, x, k + 1),
    {
        proof {
            netlist.lemma_wf_view();
        }
        let n = cur.len();
        let objs = netlist.objects();
        let mut r: Vec<usize> = Vec::new();
        let mut x: usize = 0;
        while x < n
            invariant
                netlist.wf(),
                crate::netlist::view_wf(netlist@),
                k < netlist@.nodes.len(),
                netlist@.nodes.len() < usize::MAX,
                n == cur@.len(),
                n == netlist@.nodes.len(),
                objs@.len() == n,
                forall|q: int| 0 <= q < n ==> (#[trigger] objs@[q])@ == (q as nat, netlist@.epoch),
                forall|q: int| 0 <= q < cur@.len() ==> #[trigger] cur@[q] == cdepth(netlist@, q, k),
                x <= n,
                r@.len() == x,
                forall|q: int| 0 <= q < x ==> #[trigger] r@[q] == cdepth(netlist@, q, k + 1),
            decreases n - x,
        {
            let node = objs[x];
            if node.is_an_input(netlist) {
                r.push(0);
            } else {
                let m = node.get_num_input_ports(netlist);
                let mut best: usize = 0;
                let mut j: usize = 0;
                while j < m
                    invariant
                        netlist.wf(),
                        crate::netlist::view_wf(netlist@),
                        k < netlist@.nodes.len(),
                        netlist@.nodes.len() < usize::MAX,
                        n == cur@.len(),
                        n == netlist@.nodes.len(),
                        x < n,
                        node@ == (x as nat, netlist@.epoch),
                        forall|q: int| 0 <= q < cur@.len() ==> #[trigger] cur@[q] == cdepth(netlist@, q, k),
                        m == netlist@.nodes[x as int].operands.len(),
                        j <= m,
                        best == max_slots(netlist@, x as int, j as int, k),
                    decreases m - j,
                {
                    match node.get_driver(netlist, j) {
                        Some(d) => {
                            proof {
                                let op = netlist@.nodes[x as int].operands[j as int].unwrap();
                                assert(netlist@.nodes[x as int].operands[j as int] is Some);
                                assert(crate::netlist::valid_operand(netlist@, op));
                                assert(d@.0 == op_root(op));
                            }
                            let di = d.get_index(netlist);
                            if cur[di] > best {
                                best = cur[di];
                            }
                        },
                        None => {},
                    }
                    j = j + 1;
                }
                proof {
                    lemma_max_slots_bound(netlist@, x as int, m as int, k);
                }
                r.push(best + 1);
            }
            x = x + 1;
        }
        r
    }

    /// Builds the analysis of `netlist`. Fails with
    /// [NetlistError::CycleDetected] when some top-level output is driven
    /// from a combinational cycle.
    #[verifier::spinoff_prover]
    pub fn build<I: Instantiable>(netlist: &Netlist<I>) -> (r: Result<Self, NetlistError>)
        requires
            netlist.wf(),
            netlist@.nodes.len() < usize::MAX,
        ensures
            r is Err <==> output_on_cycle(netlist@),
            r is Err ==> r == Err::<Self, NetlistError>(NetlistError::CycleDetected),
            r matches Ok(a) ==> {
                &&& a@.0.len() == netlist@.nodes.len()
                &&& forall|x: int| 0 <= x < a@.0.len() ==> #[trigger] a@.0[x] == cdepth(netlist@, x, netlist@.nodes.len())
                &&& a@.1 == max_finite(a@.0, a@.0.len() as int, netlist@.nodes.len())
                &&& a@.2 == netlist@.epoch
            },
    {
        let objs = netlist.objects();
        let n = objs.len();
        let mut cur: Vec<usize> = Vec::new();
        let mut x: usize = 0;
        while x < n
            invariant
                n == netlist@.nodes.len(),
                objs@.len() == n,
                forall|q: int| 0 <= q < n ==> (#[trigger] objs@[q])@ == (q as nat, netlist@.epoch),
                x <= n,
                cur@.len() == x,
                forall|q: int| 0 <= q < x ==> #[trigger] cur@[q] == cdepth(netlist@, q, 0),
            decreases n - x,
        {
            if objs[x].is_an_input(netlist) {
                cur.push(0);
            } else {
                cur.push(1);
            }
            x = x + 1;
        }
        let mut k: usize = 0;
        let mut stable = false;
        while k < n && !stable
            invariant
                netlist.wf(),
                n == netlist@.nodes.len(),
                n < usize::MAX,
                k <= n,
                cur@.len() == n,
                forall|q: int| 0 <= q < n ==> #[trigger] cur@[q] == cdepth(netlist@, q, k as nat),
                stable ==> forall|y: int| 0 <= y < n ==> #[trigger] cdepth(netlist@, y, n as nat) == cdepth(netlist@, y, k as nat),
            decreases n - k, if stable { 0int } else { 1int },
        {
            let next = Self::deepen(netlist, &cur, Ghost(k as nat));
            let mut same = true;
            let mut q: usize = 0;
            while q < n
                invariant
                    n == cur@.len(),
                    n == next@.len(),
                    q <= n,
                    same == forall|y: int| 0 <= y < q ==> cur@[y] == next@[y],
                decreases n - q,
            {
                if cur[q] != next[q] {
                    same = false;
                }
                q = q + 1;
            }
            if same {
                proof {
                    assert forall|y: int| 0 <= y < n implies #[trigger] cdepth(netlist@, y, (k + 1) as nat) == cdepth(netlist@, y, k as nat) by {
                        assert(cur@[y] == next@[y]);
                    }
                    netlist.lemma_wf_view();
                    lemma_cdepth_fixpoint(netlist@, k as nat, n as nat);
                }
                stable = true;
            } else {
                cur = next;
                k = k + 1;
            }
        }
        proof {
            if !stable {
                assert(k == n);
            }
        }
        let outs = netlist.outputs();
        let mut q: usize = 0;
        while q < outs.len()
            invariant
                netlist.wf(),
                n == netlist@.nodes.len(),
                cur@.len() == n,
                forall|y: int| 0 <= y < n ==> #[trigger] cur@[y] == cdepth(netlist@, y, n as nat),
                outs@.len() == netlist@.outputs.len(),
                forall|p: int| 0 <= p < outs@.len() ==> (#[trigger] outs@[p]).0@ == (op_root(netlist@.outputs[p].0), crate::netlist::op_secondary(netlist@.outputs[p].0), netlist@.epoch),
                q <= outs@.len(),
                forall|p: int| 0 <= p < q ==> comb_depth(netlist@, op_root((#[trigger] netlist@.outputs[p]).0) as int) is Some,
            decreases outs@.len() - q,
        {
            proof {
                netlist.lemma_output_valid(q as int);
            }
            let root = outs[q].0.unwrap().get_index(netlist);
            if cur[root] > n {
                return Err(NetlistError::CycleDetected);
            }
            q = q + 1;
        }
        let mut max_depth: usize = 0;
        let mut y: usize = 0;
        while y < n
            invariant
                n == cur@.len(),
                y <= n,
                max_depth == max_finite(cur@, y as int, n as nat),
                max_depth <= n,
            decreases n - y,
        {
            if cur[y] <= n && cur[y] > max_depth {
                max_depth = cur[y];
            }
            y = y + 1;
        }
        Ok(SimpleCombDepth { depths: cur, max_depth, epoch: netlist.epoch_of() })
    }

    /// Returns the combinational depth of `node`, if it is defined: `None`
    /// for a node on or after a combinational cycle, or for a handle that
    /// this analysis does not cover.
    pub fn get_comb_depth(&self, node: &NetRef) -> (r: Option<usize>)
        ensures
            r is Some <==> node@.1 == self@.2 && node@.0 < self@.0.len() && self@.0[node@.0 as int] <= self@.0.len(),
            r matches Some(d) ==> d == self@.0[node@.0 as int],
    {
        let i = node.raw_index();
        if node.raw_epoch() != self.epoch || i >= self.depths.len() {
            return None;
        }
        if self.depths[i] <= self.depths.len() {
            Some(self.depths[i])
        } else {
            None
        }
    }

    /// Returns the largest defined combinational depth, or 0.
    pub fn get_max_depth(&self) -> (r: usize)
        ensures
            r == self@.1,
    {
        self.max_depth
    }
}


/// The nodes that drive slots `0..m` of node `x`, in slot order, one entry
/// per connected slot.
pub open spec fn slot_roots<I>(v: NetlistView<I>, x: int, m: int) -> Seq<usize>
    decreases m,
{
    if m <= 0 {
        Seq::empty()
    } else {
        match v.nodes[x].operands[m - 1] {
            Some(op) => slot_roots(v, x, m - 1).push(op_root(op) as usize),
            None => slot_roots(v, x, m - 1),
        }
    }
}

/// The drivers of node `x`, one entry per connected slot.
pub open spec fn driver_roots<I>(v: NetlistView<I>, x: int) -> Seq<usize> {
    slot_roots(v, x, v.nodes[x].operands.len() as int)
}

/// The position of the topmost stack entry that is not visited yet, or -1.
pub open spec fn fresh_top(stack: Seq<usize>, visited: Seq<bool>) -> int
    decreases stack.len(),
{
    if stack.len() == 0 {
        -1
    } else if !visited[stack.last() as int] {
        stack.len() - 1
    } else {
        fresh_top(stack.drop_last(), visited)
    }
}

/// The number of nodes not visited yet.
pub open spec fn unvisited(visited: Seq<bool>) -> nat
    decreases visited.len(),
{
    if visited.len() == 0 {
        0
    } else {
        unvisited(visited.drop_last()) + if visited.last() { 0nat } else { 1nat }
    }
}

/// A depth-first walk over the drivers of a node, from a node to the nodes
/// that drive its input slots. Reaching a node that was already visited
/// sets a sticky cycle flag and skips the node; the walk goes on.
#[derive(Debug)]
pub struct DFSIterator {
    stack: Vec<usize>,
    visited: Vec<bool>,
    cycles: bool,
    epoch: u64,
}

impl View for DFSIterator {
    type V = (Seq<usize>, Seq<bool>, bool, u64);

    closed spec fn view(&self) -> (Seq<usize>, Seq<bool>, bool, u64) {
        (self.stack@, self.visited@, self.cycles, self.epoch)
    }
}

/// The walk state fits the netlist: one visited flag per node, and every
/// stack entry addresses a node.
pub open spec fn walk_ok<I>(v: NetlistView<I>, w: (Seq<usize>, Seq<bool>, bool, u64)) -> bool {
    &&& w.1.len() == v.nodes.len()
    &&& forall|q: int| 0 <= q < w.0.len() ==> (#[trigger] w.0[q]) < v.nodes.len()
    &&& w.3 == v.epoch
}

/// The entries of the stack at and above `t` are visited, and the entry at
/// `t` is not, for the topmost fresh position `t`.
pub proof fn lemma_fresh_top(stack: Seq<usize>, visited: Seq<bool>)
    ensures
        -1 <= fresh_top(stack, visited) < stack.len(),
        fresh_top(stack, visited) >= 0 ==> !visited[stack[fresh_top(stack, visited)] as int],
        forall|q: int| fresh_top(stack, visited) < q < stack.len() ==> visited[#[trigger] stack[q] as int],
    decreases stack.len(),
{
    if stack.len() > 0 && visited[stack.last() as int] {
        lemma_fresh_top(stack.drop_last(), visited);
        assert forall|q: int| fresh_top(stack, visited) < q < stack.len() implies visited[#[trigger] stack[q] as int] by {
            if q < stack.len() - 1 {
                assert(stack[q] == stack.drop_last()[q]);
            }
        }
    }
}

/// Visiting a new node lowers the count of unvisited nodes.
pub proof fn lemma_unvisited_dec(visited: Seq<bool>, x: int)
    requires
        0 <= x < visited.len(),
        !visited[x],
    ensures
        unvisited(visited.update(x, true)) < unvisited(visited),
    decreases visited.len(),
{
    let u = visited.update(x, true);
    if x == visited.len() - 1 {
        assert(u.drop_last() =~= visited.drop_last());
        lemma_unvisited_le(visited.drop_last());
    } else {
        assert(u.drop_last() =~= visited.drop_last().update(x, true));
        lemma_unvisited_dec(visited.drop_last(), x);
    }
}

/// Helper: the count is a natural number.
pub proof fn lemma_unvisited_le(visited: Seq<bool>)
    ensures
        unvisited(visited) <= visited.len(),
    decreases visited.len(),
{
    if visited.len() > 0 {
        lemma_unvisited_le(visited.drop_last());
    }
}

/// A walk that has not started: one node on the stack, nothing visited.
pub open spec fn fresh_walk(w: (Seq<usize>, Seq<bool>, bool, u64)) -> bool {
    &&& w.0.len() == 1
    &&& !w.2
    &&& forall|q: int| 0 <= q < w.1.len() ==> !#[trigger] w.1[q]
}

impl DFSIterator {
    /// Creates a walk over `netlist` that starts at `from`.
    pub fn new<I: Instantiable>(netlist: &Netlist<I>, from: NetRef) -> (r: Self)
        requires
            valid_ref(netlist@, from@),
        ensures
            r@ == (seq![from@.0 as usize], Seq::new(netlist@.nodes.len(), |i: int| false), false, netlist@.epoch),
            walk_ok(netlist@, r@),
    {
        let n = netlist.objects().len();
        let mut visited: Vec<bool> = Vec::new();
        let mut i: usize = 0;
        while i < n
            invariant
                i <= n,
                visited@.len() == i,
                forall|q: int| 0 <= q < i ==> !(#[trigger] visited@[q]),
            decreases n - i,
        {
            visited.push(false);
            i = i + 1;
        }
        let r = DFSIterator { stack: vec![from.get_index(netlist)], visited, cycles: false, epoch: netlist.epoch_of() };
        proof {
            assert(r.visited@ =~= Seq::new(netlist@.nodes.len(), |i: int| false));
            assert(r.stack@ =~= seq![from@.0 as usize]);
        }
        r
    }

    /// Returns `true` once the walk has reached a node a second time.
    pub fn check_cycles(&self) -> (r: bool)
        ensures
            r == self@.2,
    {
        self.cycles
    }

    /// Visits the next node: stack entries already visited are popped and
    /// set the cycle flag; the topmost fresh entry is visited, its drivers
    /// pushed in slot order, and a handle to it returned. `None` once the
    /// stack is empty.
    #[verifier::spinoff_prover]
    pub fn next<I: Instantiable>(&mut self, netlist: &Netlist<I>) -> (r: Option<NetRef>)
        requires
            netlist.wf(),
            walk_ok(netlist@, old(self)@),
        ensures
            walk_ok(netlist@, final(self)@),
            final(self)@.3 == old(self)@.3,
            walk_step(netlist@, old(self)@, final(self)@),
            ({
                let (stack, visited, cycles, epoch) = old(self)@;
                let t = fresh_top(stack, visited);
                if t < 0 {
                    &&& r is None
                    &&& final(self)@.0 == Seq::<usize>::empty()
                    &&& final(self)@.1 == visited
                    &&& final(self)@.2 == (cycles || stack.len() > 0)
                } else {
                    &&& r is Some && r.unwrap()@ == (stack[t] as nat, epoch)
                    &&& final(self)@.0 == stack.subrange(0, t) + driver_roots(netlist@, stack[t] as int)
                    &&& final(self)@.1 == visited.update(stack[t] as int, true)
                    &&& final(self)@.2 == (cycles || t < stack.len() - 1)
                }
            }),
    {
        let ghost stack0 = self.stack@;
        let ghost visited0 = self.visited@;
        let ghost cycles0 = self.cycles;
        proof {
            lemma_fresh_top(stack0, visited0);
            netlist.lemma_wf_view();
        }
        while self.stack.len() > 0
            invariant
                netlist.wf(),
                crate::netlist::view_wf(netlist@),
                walk_ok(netlist@, self@),
                self.visited@ == visited0,
                self.epoch == old(self)@.3,
                stack0 == old(self)@.0,
                visited0 == old(self)@.1,
                cycles0 == old(self)@.2,
                self.stack@.len() <= stack0.len(),
                self.stack@ == stack0.subrange(0, self.stack@.len() as int),
                fresh_top(self.stack@, visited0) == fresh_top(stack0, visited0),
                self.cycles == (cycles0 || self.stack@.len() < stack0.len()),
                -1 <= fresh_top(stack0, visited0) < stack0.len(),
                fresh_top(stack0, visited0) >= 0 ==> !visited0[stack0[fresh_top(stack0, visited0)] as int],
            decreases self.stack@.len(),
        {
            let ghost before = self.stack@;
            proof {
                assert(before == self@.0);
                assert(self@.0[before.len() - 1] < netlist@.nodes.len());
                assert forall|q: int| 0 <= q < before.len() implies (#[trigger] before[q]) < netlist@.nodes.len() by {
                    assert(self@.0[q] < netlist@.nodes.len());
                }
            }
            let x = self.stack.pop().unwrap();
            proof {
                assert(self.stack@ =~= stack0.subrange(0, self.stack@.len() as int));
                assert(before.drop_last() == self.stack@);
                assert(x == before[before.len() - 1]);
                assert(x < netlist@.nodes.len());
                assert forall|q: int| 0 <= q < self.stack@.len() implies (#[trigger] self.stack@[q]) < netlist@.nodes.len() by {
                    assert(self.stack@[q] == before[q]);
                }
            }
            if self.visited[x] {
                self.cycles = true;
            } else {
                proof {
                    assert(fresh_top(before, visited0) == before.len() - 1);
                }
                let ghost t = fresh_top(stack0, visited0);
                self.visited.set(x, true);
                let nr = NetRef::from_index(netlist, x);
                let drivers = nr.drivers(netlist);
                let ghost base = self.stack@;
                let mut j: usize = 0;
                proof {
                    assert(base + slot_roots(netlist@, x as int, 0) =~= base);
                }
                while j < drivers.len()
                    invariant
                        netlist.wf(),
                        crate::netlist::view_wf(netlist@),
                        x < netlist@.nodes.len(),
                        nr@ == (x as nat, netlist@.epoch),
                        drivers@.len() == netlist@.nodes[x as int].operands.len(),
                        forall|q: int| 0 <= q < drivers@.len() ==> match netlist@.nodes[x as int].operands[q] {
                            Some(op) => (#[trigger] drivers@[q]) is Some && drivers@[q].unwrap()@ == (op_root(op), netlist@.epoch),
                            None => drivers@[q] is None,
                        },
                        forall|q: int| 0 <= q < base.len() ==> (#[trigger] base[q]) < netlist@.nodes.len(),
                        j <= drivers@.len(),
                        self.stack@ == base + slot_roots(netlist@, x as int, j as int),
                        forall|q: int| 0 <= q < self.stack@.len() ==> (#[trigger] self.stack@[q]) < netlist@.nodes.len(),
                        self.visited@ == visited0.update(x as int, true),
                        self.visited@.len() == netlist@.nodes.len(),
                        self.cycles == (cycles0 || before.len() < stack0.len()),
                        self.epoch == old(self)@.3,
                        old(self)@.3 == netlist@.epoch,
                        stack0 == old(self)@.0,
                        visited0 == old(self)@.1,
                        cycles0 == old(self)@.2,
                    decreases drivers@.len() - j,
                {
                    match drivers[j] {
                        Some(d) => {
                            proof {
                                let op = netlist@.nodes[x as int].operands[j as int].unwrap();
                                assert(netlist@.nodes[x as int].operands[j as int] is Some);
                                assert(crate::netlist::valid_operand(netlist@, op));
                            }
                            self.stack.push(d.get_index(netlist));
                            proof {
                                assert(self.stack@ =~= base + slot_roots(netlist@, x as int, j + 1));
                            }
                        },
                        None => {},
                    }
                    j = j + 1;
                }
                proof {
                    assert(t == before.len() - 1);
                    assert(stack0[t] == x);
                    assert(before.drop_last() =~= stack0.subrange(0, t));
                    assert(self@.0 == stack0.subrange(0, t) + driver_roots(netlist@, x as int));
                    assert(stack0 == old(self)@.0);
                    assert(visited0 == old(self)@.1);
                    assert(cycles0 == old(self)@.2);
                    assert(t == fresh_top(old(self)@.0, old(self)@.1));
                    assert(self@.1 == visited0.update(stack0[t] as int, true));
                    assert(self@.2 == (cycles0 || t < stack0.len() - 1));
                    assert(nr@ == (stack0[t] as nat, old(self)@.3));
                }
                return Some(nr);
            }
        }
        proof {
            assert(self.stack@ =~= Seq::<usize>::empty());
        }
        None
    }

    /// Walks to the end and returns whether a node was reached twice.
    /// From a fresh walk this holds exactly when the part of the netlist
    /// reachable from the start has at least as many wires as nodes: when it
    /// is not a tree, because of a combinational cycle or of a reconvergent
    /// path.
    #[verifier::spinoff_prover]
    pub fn detect_cycles<I: Instantiable>(self, netlist: &Netlist<I>) -> (r: bool)
        requires
            netlist.wf(),
            walk_ok(netlist@, self@),
        ensures
            self@.2 ==> r,
            fresh_walk(self@) ==> r == walk_finds_repeat(netlist@, self@.0[0]),
            fresh_walk(self@) ==> {
                &&& is_input_at(netlist@, self@.0[0] as int) ==> !r
                &&& driver_roots(netlist@, self@.0[0] as int).contains(self@.0[0]) ==> r
            },
    {
        let ghost w0 = self@;
        if self.cycles {
            return true;
        }
        let mut walk = self;
        let bound = walk.visited.len();
        let ghost fresh = fresh_walk(w0);
        let ghost f: usize = w0.0[0];
        let ghost mut dups: nat = 0;
        proof {
            netlist.lemma_wf_view();
            if fresh {
                let v = netlist@;
                let n = v.nodes.len() as int;
                assert(f < n);
                lemma_flags_none(v, w0.1, n);
                let p = seq![f];
                assert(is_driver_path(v, p));
                assert(reachable(v, f, f));
                assert(w0.0 =~= seq![f]);
                assert(w0.0.contains(f)) by {
                    assert(w0.0[0] == f);
                }
                assert forall|q: int| 0 <= q < w0.0.len() implies reachable(v, f, #[trigger] w0.0[q]) by {
                    assert(w0.0[q] == f);
                }
                assert(walk_inv(v, f, w0, 0));
            }
        }
        let ghost self_loop = fresh && driver_roots(netlist@, f as int).contains(f);
        let ghost from_input = fresh && is_input_at(netlist@, f as int);
        let ghost mut started = false;
        loop
            invariant
                netlist.wf(),
                crate::netlist::view_wf(netlist@),
                walk_ok(netlist@, walk@),
                !w0.2,
                w0 == self@,
                fresh == fresh_walk(w0),
                self_loop == (fresh && driver_roots(netlist@, f as int).contains(f)),
                from_input == (fresh && is_input_at(netlist@, f as int)),
                !started ==> walk@ == w0,
                started && self_loop ==> walk@.2 || (walk@.1[f as int] && walk@.0.contains(f)),
                started && from_input ==> walk@.0.len() == 0 && !walk@.2,
                netlist@.nodes.len() == bound,
                fresh ==> f == w0.0[0] && f < netlist@.nodes.len(),
                fresh ==> walk_inv(netlist@, f, walk@, dups),
            decreases unvisited(walk@.1),
        {
            let ghost w = walk@;
            proof {
                lemma_fresh_top(w.0, w.1);
            }
            let next = walk.next(netlist);
            proof {
                if fresh {
                    dups = lemma_walk_step(netlist@, f, w, walk@, dups);
                }
                let t = fresh_top(w.0, w.1);
                if t >= 0 {
                    lemma_unvisited_dec(w.1, w.0[t] as int);
                }
                if !started && fresh {
                    assert(w == w0);
                    assert(w.0 =~= seq![f]);
                    assert(fresh_top(w.0, w.1) == 0);
                    assert(w.0.subrange(0, 0) =~= Seq::<usize>::empty());
                    assert(walk@.0 =~= driver_roots(netlist@, f as int));
                    if from_input {
                        assert(crate::netlist::node_wf(netlist@.nodes[f as int]));
                        assert(driver_roots(netlist@, f as int) =~= Seq::<usize>::empty());
                    }
                } else if started && self_loop && !w.2 {
                    let q = choose|q: int| 0 <= q < w.0.len() && w.0[q] == f;
                    assert(w.1[w.0[q] as int]);
                    if t >= 0 {
                        assert(q != t);
                        if q < t {
                            assert(walk@.0[q] == w.0.subrange(0, t)[q]);
                            assert(walk@.0.contains(f));
                            assert(walk@.1[f as int]);
                        }
                    }
                }
                started = true;
            }
            match next {
                Some(_) => {},
                None => {
                    proof {
                        if fresh {
                            let v = netlist@;
                            let n = v.nodes.len() as int;
                            let u = walk@;
                            let rf = reach_flags(v, f);
                            assert(u.0.len() == 0);
                            assert forall|y: int, q: int| 0 <= y < u.1.len() && u.1[y] && 0 <= q < driver_roots(v, y).len()
                                implies (#[trigger] driver_roots(v, y)[q]) < u.1.len() && u.1[driver_roots(v, y)[q] as int] by {
                                lemma_driver_roots_valid(v, y, v.nodes[y].operands.len() as int);
                                if u.0.contains(driver_roots(v, y)[q]) {
                                    let k = choose|k: int| 0 <= k < u.0.len() && u.0[k] == driver_roots(v, y)[q];
                                }
                            }
                            if u.0.contains(f) {
                                let k = choose|k: int| 0 <= k < u.0.len() && u.0[k] == f;
                            }
                            assert forall|x: int| 0 <= x < n implies u.1[x] == rf[x] by {
                                if u.1[x] {
                                    assert(reachable(v, f, x as usize));
                                }
                                if reachable(v, f, x as usize) {
                                    let p = choose|p: Seq<usize>| #[trigger] is_driver_path(v, p) && p[0] == f && p.last() == x as usize;
                                    lemma_closed_holds_path(v, u.1, p, p.len() - 1);
                                }
                            }
                            lemma_flags_ext(v, u.1, rf, n);
                        }
                    }
                    return walk.cycles;
                },
            }
        }
    }
}

/// Each node of `p` after the first drives a slot of the node before it.
pub open spec fn is_driver_path<I>(v: NetlistView<I>, p: Seq<usize>) -> bool {
    &&& p.len() >= 1
    &&& forall|i: int| 0 <= i < p.len() ==> #[trigger] p[i] < v.nodes.len()
    &&& forall|i: int| 0 <= i < p.len() - 1 ==> driver_roots(v, #[trigger] p[i] as int).contains(p[i + 1])
}

/// Node `x` is reachable from `f` along drivers.
pub open spec fn reachable<I>(v: NetlistView<I>, f: usize, x: usize) -> bool {
    exists|p: Seq<usize>| #[trigger] is_driver_path(v, p) && p[0] == f && p.last() == x
}

/// The number of `true` flags among the first `n`.
pub open spec fn count_true(flags: Seq<bool>, n: int) -> nat
    decreases n,
{
    if n <= 0 {
        0
    } else {
        count_true(flags, n - 1) + if flags[n - 1] { 1nat } else { 0nat }
    }
}

/// The number of connected slots of the flagged nodes among the first `n`.
pub open spec fn deg_sum<I>(v: NetlistView<I>, flags: Seq<bool>, n: int) -> nat
    decreases n,
{
    if n <= 0 {
        0
    } else {
        deg_sum(v, flags, n - 1) + if flags[n - 1] { driver_roots(v, n - 1).len() } else { 0nat }
    }
}

/// The nodes reachable from `f`, as flags.
pub open spec fn reach_flags<I>(v: NetlistView<I>, f: usize) -> Seq<bool> {
    Seq::new(v.nodes.len(), |x: int| reachable(v, f, x as usize))
}

/// The walk from `f` finds a node twice exactly when the part of the
/// netlist reachable from `f` has at least as many wires as nodes, that is,
/// when it is not a tree: it has a cycle or a reconvergent path.
pub open spec fn walk_finds_repeat<I>(v: NetlistView<I>, f: usize) -> bool {
    let r = reach_flags(v, f);
    1 + deg_sum(v, r, v.nodes.len() as int) > count_true(r, v.nodes.len() as int)
}

/// Setting an unset flag adds one to the count and the node's slots to the sum.
pub proof fn lemma_flag_set<I>(v: NetlistView<I>, flags: Seq<bool>, x: int, n: int)
    requires
        0 <= x < flags.len(),
        !flags[x],
        0 <= n <= flags.len(),
    ensures
        count_true(flags.update(x, true), n) == count_true(flags, n) + if x < n { 1nat } else { 0nat },
        deg_sum(v, flags.update(x, true), n) == deg_sum(v, flags, n) + if x < n { driver_roots(v, x).len() } else { 0nat },
    decreases n,
{
    if n > 0 {
        lemma_flag_set(v, flags, x, n - 1);
    }
}

/// Flags that agree give the same count and sum.
pub proof fn lemma_flags_ext<I>(v: NetlistView<I>, a: Seq<bool>, b: Seq<bool>, n: int)
    requires
        0 <= n <= a.len(),
        a.len() == b.len(),
        forall|x: int| 0 <= x < n ==> a[x] == b[x],
    ensures
        count_true(a, n) == count_true(b, n),
        deg_sum(v, a, n) == deg_sum(v, b, n),
    decreases n,
{
    if n > 0 {
        lemma_flags_ext(v, a, b, n - 1);
    }
}

/// A set of nodes that holds the first node of a driver path and the
/// drivers of each of its nodes holds every node of the path.
pub proof fn lemma_closed_holds_path<I>(v: NetlistView<I>, flags: Seq<bool>, p: Seq<usize>, i: int)
    requires
        flags.len() == v.nodes.len(),
        is_driver_path(v, p),
        flags[p[0] as int],
        forall|y: int, q: int| 0 <= y < flags.len() && flags[y] && 0 <= q < driver_roots(v, y).len()
            ==> (#[trigger] driver_roots(v, y)[q]) < flags.len() && flags[driver_roots(v, y)[q] as int],
        0 <= i < p.len(),
    ensures
        flags[p[i] as int],
    decreases i,
{
    if i > 0 {
        let j = i - 1;
        lemma_closed_holds_path(v, flags, p, j);
        assert(driver_roots(v, p[j] as int).contains(p[j + 1]));
        let q = choose|q: int| 0 <= q < driver_roots(v, p[j] as int).len() && #[trigger] driver_roots(v, p[j] as int)[q] == p[j + 1];
        assert(p[j] < v.nodes.len());
        assert(driver_roots(v, p[j] as int)[q] < flags.len());
    }
}

/// The drivers of a node are nodes of the store.
pub proof fn lemma_driver_roots_valid<I: Instantiable>(v: NetlistView<I>, x: int, m: int)
    requires
        crate::netlist::view_wf(v),
        0 <= x < v.nodes.len(),
        0 <= m <= v.nodes[x].operands.len(),
    ensures
        forall|q: int| 0 <= q < slot_roots(v, x, m).len() ==> (#[trigger] slot_roots(v, x, m)[q]) < v.nodes.len(),
    decreases m,
{
    if m > 0 {
        lemma_driver_roots_valid(v, x, m - 1);
        match v.nodes[x].operands[m - 1] {
            Some(op) => {
                assert(v.nodes[x].operands[m - 1] is Some);
                assert(crate::netlist::valid_operand(v, op));
                let a = slot_roots(v, x, m - 1);
                assert forall|q: int| 0 <= q < slot_roots(v, x, m).len() implies (#[trigger] slot_roots(v, x, m)[q]) < v.nodes.len() by {
                    if q < a.len() {
                        assert(slot_roots(v, x, m)[q] == a[q]);
                    }
                }
            },
            None => {
                assert(slot_roots(v, x, m) == slot_roots(v, x, m - 1));
            },
        }
    }
}

/// The walk state after some steps from a fresh start at `f`: every node on
/// the stack or visited is reachable; each visited node's drivers are
/// visited or on the stack; and the counts of pushes and pops agree.
pub open spec fn walk_inv<I>(v: NetlistView<I>, f: usize, w: (Seq<usize>, Seq<bool>, bool, u64), dups: nat) -> bool {
    let n = v.nodes.len() as int;
    &&& forall|q: int| 0 <= q < w.0.len() ==> reachable(v, f, #[trigger] w.0[q])
    &&& forall|x: int| 0 <= x < n && #[trigger] w.1[x] ==> reachable(v, f, x as usize)
    &&& forall|y: int, q: int| 0 <= y < n && w.1[y] && 0 <= q < driver_roots(v, y).len()
        ==> w.1[#[trigger] driver_roots(v, y)[q] as int] || w.0.contains(driver_roots(v, y)[q])
    &&& (w.1[f as int] || w.0.contains(f))
    &&& 1 + deg_sum(v, w.1, n) == count_true(w.1, n) + dups + w.0.len()
    &&& w.2 == (dups > 0)
}
/// One step of the walk on `v` takes state `w` to state `u`.
pub open spec fn walk_step<I>(v: NetlistView<I>, w: (Seq<usize>, Seq<bool>, bool, u64), u: (Seq<usize>, Seq<bool>, bool, u64)) -> bool {
    let t = fresh_top(w.0, w.1);
    &&& u.3 == w.3
    &&& if t < 0 {
        &&& u.0 == Seq::<usize>::empty()
        &&& u.1 == w.1
        &&& u.2 == (w.2 || w.0.len() > 0)
    } else {
        &&& u.0 == w.0.subrange(0, t) + driver_roots(v, w.0[t] as int)
        &&& u.1 == w.1.update(w.0[t] as int, true)
        &&& u.2 == (w.2 || t < w.0.len() - 1)
    }
}

/// All flags unset: nothing counted.
pub proof fn lemma_flags_none<I>(v: NetlistView<I>, flags: Seq<bool>, n: int)
    requires
        0 <= n <= flags.len(),
        forall|x: int| 0 <= x < flags.len() ==> !#[trigger] flags[x],
    ensures
        count_true(flags, n) == 0,
        deg_sum(v, flags, n) == 0,
    decreases n,
{
    if n > 0 {
        lemma_flags_none(v, flags, n - 1);
    }
}

/// A driver of a reachable node is reachable.
pub proof fn lemma_reach_driver<I: Instantiable>(v: NetlistView<I>, f: usize, x: usize, q: int)
    requires
        crate::netlist::view_wf(v),
        reachable(v, f, x),
        0 <= q < driver_roots(v, x as int).len(),
    ensures
        reachable(v, f, driver_roots(v, x as int)[q]),
{
    let p = choose|p: Seq<usize>| #[trigger] is_driver_path(v, p) && p[0] == f && p.last() == x;
    let y = driver_roots(v, x as int)[q];
    let longer = p.push(y);
    assert(p[p.len() - 1] < v.nodes.len());
    lemma_driver_roots_valid(v, x as int, v.nodes[x as int].operands.len() as int);
    assert(y < v.nodes.len());
    assert forall|i: int| 0 <= i < longer.len() implies #[trigger] longer[i] < v.nodes.len() by {
        if i < p.len() {
            assert(longer[i] == p[i]);
        }
    }
    assert forall|i: int| 0 <= i < longer.len() - 1 implies driver_roots(v, #[trigger] longer[i] as int).contains(longer[i + 1]) by {
        if i < p.len() - 1 {
            assert(longer[i] == p[i] && longer[i + 1] == p[i + 1]);
        } else {
            assert(longer[i] == x);
            assert(longer[i + 1] == y);
        }
    }
    assert(is_driver_path(v, longer));
}

/// One step keeps the walk invariant, counting the entries popped a
/// second time.
pub proof fn lemma_walk_step<I: Instantiable>(v: NetlistView<I>, f: usize, w: (Seq<usize>, Seq<bool>, bool, u64), u: (Seq<usize>, Seq<bool>, bool, u64), dups: nat) -> (d: nat)
    requires
        crate::netlist::view_wf(v),
        walk_ok(v, w),
        walk_inv(v, f, w, dups),
        walk_step(v, w, u),
    ensures
        walk_inv(v, f, u, d),
{
    let n = v.nodes.len() as int;
    let t = fresh_top(w.0, w.1);
    lemma_fresh_top(w.0, w.1);
    if t < 0 {
        let d = dups + w.0.len();
        assert forall|y: int, q: int| 0 <= y < n && u.1[y] && 0 <= q < driver_roots(v, y).len()
            implies u.1[#[trigger] driver_roots(v, y)[q] as int] || u.0.contains(driver_roots(v, y)[q]) by {
            let z = driver_roots(v, y)[q];
            if !w.1[z as int] {
                let k = choose|k: int| 0 <= k < w.0.len() && w.0[k] == z;
                assert(w.1[w.0[k] as int]);
            }
        }
        if !w.1[f as int] {
            let k = choose|k: int| 0 <= k < w.0.len() && w.0[k] == f;
            assert(w.1[w.0[k] as int]);
        }
        d
    } else {
        let x = w.0[t];
        let dr = driver_roots(v, x as int);
        let d = (dups + (w.0.len() - 1 - t)) as nat;
        assert(x < n);
        lemma_flag_set(v, w.1, x as int, n);
        lemma_driver_roots_valid(v, x as int, v.nodes[x as int].operands.len() as int);
        assert(reachable(v, f, w.0[t]));
        assert forall|q: int| 0 <= q < u.0.len() implies reachable(v, f, #[trigger] u.0[q]) by {
            if q < t {
                assert(u.0[q] == w.0[q]);
            } else {
                assert(u.0[q] == dr[q - t]);
                lemma_reach_driver(v, f, x, q - t);
            }
        }
        assert forall|z: int| 0 <= z < n && #[trigger] u.1[z] implies reachable(v, f, z as usize) by {
            if z != x {
                assert(w.1[z]);
            }
        }
        assert forall|y: int, q: int| 0 <= y < n && u.1[y] && 0 <= q < driver_roots(v, y).len()
            implies u.1[#[trigger] driver_roots(v, y)[q] as int] || u.0.contains(driver_roots(v, y)[q]) by {
            let z = driver_roots(v, y)[q];
            lemma_driver_roots_valid(v, y, v.nodes[y].operands.len() as int);
            assert(z < n);
            if y == x {
                assert(u.0[t + q] == z);
                assert(u.0.contains(z));
            } else {
                assert(w.1[y]);
                assert(u.1[y] == w.1[y]);
                if !w.1[z as int] {
                    assert(w.0.contains(z));
                    let k = choose|k: int| 0 <= k < w.0.len() && w.0[k] == z;
                    if k < t {
                        assert(u.0[k] == z);
                        assert(u.0.contains(z));
                    } else if k > t {
                        assert(w.1[w.0[k] as int]);
                    } else {
                        assert(z == x);
                        assert(u.1[z as int]);
                    }
                } else {
                    assert(u.1[z as int]);
                }
            }
        }
        if !w.1[f as int] {
            let k = choose|k: int| 0 <= k < w.0.len() && w.0[k] == f;
            if k < t {
                assert(u.0[k] == f);
            } else if k > t {
                assert(w.1[w.0[k] as int]);
            }
        }
        d
    }
}

impl NetRef {
    /// A handle to node `i` of `netlist` in its current epoch.
    pub fn from_index<I: Instantiable>(netlist: &Netlist<I>, i: usize) -> (r: NetRef)
        ensures
            r@ == (i as nat, netlist@.epoch),
    {
        netlist.handle_at(i)
    }
}

/// An analysis of a netlist, built from a snapshot of it.
pub trait Analysis<I: Instantiable>: Sized {
    /// `r` is what building the analysis of `v` gives.
    spec fn built_from(v: NetlistView<I>, r: Result<Self, NetlistError>) -> bool;

    /// Builds the analysis of the current state of `netlist`.
    fn build_from(netlist: &Netlist<I>) -> (r: Result<Self, NetlistError>)
        requires
            netlist.wf(),
            netlist@.nodes.len() < usize::MAX,
        ensures
            Self::built_from(netlist@, r),
    ;
}

impl<I: Instantiable> Analysis<I> for FanOutTable {
    open spec fn built_from(v: NetlistView<I>, r: Result<Self, NetlistError>) -> bool {
        r matches Ok(t) && t@.0 == fan_edges(v) && t@.1 == output_nets(v, v.outputs.len() as int)
    }

    fn build_from(netlist: &Netlist<I>) -> (r: Result<Self, NetlistError>) {
        FanOutTable::build(netlist)
    }
}

impl<I: Instantiable> Analysis<I> for SimpleCombDepth {
    open spec fn built_from(v: NetlistView<I>, r: Result<Self, NetlistError>) -> bool {
        &&& r is Err <==> output_on_cycle(v)
        &&& r is Err ==> r == Err::<Self, NetlistError>(NetlistError::CycleDetected)
        &&& r matches Ok(a) ==> {
            &&& a@.0.len() == v.nodes.len()
            &&& forall|x: int| 0 <= x < a@.0.len() ==> #[trigger] a@.0[x] == cdepth(v, x, v.nodes.len())
            &&& a@.1 == max_finite(a@.0, a@.0.len() as int, v.nodes.len())
            &&& a@.2 == v.epoch
        }
    }

    fn build_from(netlist: &Netlist<I>) -> (r: Result<Self, NetlistError>) {
        SimpleCombDepth::build(netlist)
    }
}

impl<I: Instantiable> Netlist<I> {
    /// Builds an analysis of the current state of the netlist.
    pub fn get_analysis<A: Analysis<I>>(&self) -> (r: Result<A, NetlistError>)
        requires
            self.wf(),
            self@.nodes.len() < usize::MAX,
        ensures
            A::built_from(self@, r),
    {
        A::build_from(self)
    }
}
} // verus!
