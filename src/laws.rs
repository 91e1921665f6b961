//! Laws that relate the operations of the netlist to each other.

use vstd::prelude::*;
use crate::circuit::{Identifier, Instantiable, Net, NetView, Object, object_nets};
use crate::graph::{cdepth, comb_depth, max_slots};
use crate::netlist::{
    NetlistView, NodeView, Operand, appended, compacted, drives_output, has_dead, has_key, is_dead,
    is_input_at, lemma_addressed_survives, lemma_rank_mono, lemma_remap_valid, moved_node, net_ids,
    nets_at, nets_unique, op_remap, op_root, op_secondary, operand_for, outputs_insert, outputs_replaced,
    out_pos, output_keys_unique, rank, remap_slot, slot_rewrite, slots_rewritten, used_by_slot, valid_operand,
    view_wf,
};

verus! {

/// The identifiers of a prefix of the store do not change when nodes are appended.
proof fn lemma_net_ids_prefix<I>(a: NetlistView<I>, b: NetlistView<I>, n: int)
    requires
        0 <= n <= a.nodes.len() <= b.nodes.len(),
        forall|i: int| 0 <= i < a.nodes.len() ==> #[trigger] b.nodes[i] == a.nodes[i],
    ensures
        net_ids(a, n) == net_ids(b, n),
    decreases n,
{
    if n > 0 {
        lemma_net_ids_prefix(a, b, n - 1);
        assert(b.nodes[n - 1] == a.nodes[n - 1]);
    }
}

/// Every net identifier of the first `n` nodes occurs in their identifier list.
proof fn lemma_net_ids_contains<I>(v: NetlistView<I>, n: int, i: int, p: int)
    requires
        0 <= i < n,
        0 <= p < nets_at(v, i).len(),
    ensures
        net_ids(v, n).contains(nets_at(v, i)[p]@.0),
    decreases n,
{
    let tail = nets_at(v, n - 1).map_values(|x: Net| x@.0);
    if i < n - 1 {
        lemma_net_ids_contains(v, n - 1, i, p);
        let q = choose|q: int| 0 <= q < net_ids(v, n - 1).len() && #[trigger] net_ids(v, n - 1)[q] == nets_at(v, i)[p]@.0;
        assert(net_ids(v, n)[q] == net_ids(v, n - 1)[q]);
    } else {
        assert(net_ids(v, n)[net_ids(v, n - 1).len() + p] == tail[p]);
    }
}

/// Inserting a principal input whose net is named like a net already in the
/// netlist makes the net identifiers non-unique, so that
/// [crate::netlist::Netlist::verify] fails until one of them is renamed.
pub proof fn law_duplicate_input_breaks_uniqueness<I>(old: NetlistView<I>, new: NetlistView<I>, net: Net, i: int, p: int)
    requires
        appended(old, new),
        new.nodes.last().object == Object::<I>::Input(net),
        0 <= i < old.nodes.len(),
        0 <= p < nets_at(old, i).len(),
        nets_at(old, i)[p]@.0 == net@.0,
    ensures
        !nets_unique(new),
{
    let n = old.nodes.len() as int;
    assert forall|k: int| 0 <= k < old.nodes.len() implies #[trigger] new.nodes[k] == old.nodes[k] by {
        assert(new.nodes[k] == new.nodes.subrange(0, n)[k]);
    }
    lemma_net_ids_prefix(old, new, n);
    lemma_net_ids_contains(old, n, i, p);
    let ids = net_ids(new, n + 1);
    let q = choose|q: int| 0 <= q < net_ids(old, n).len() && #[trigger] net_ids(old, n)[q] == nets_at(old, i)[p]@.0;
    assert(nets_at(new, n) == seq![net]);
    assert(ids[q] == net@.0);
    assert(ids[net_ids(old, n).len() as int] == net@.0);
    assert(new.nodes.len() == n + 1);
}

/// A netlist without dead nodes is a fixed point of compaction: every node
/// keeps its index, so a second [crate::netlist::Netlist::clean] changes nothing.
pub proof fn law_clean_fixed_point<I>(v: NetlistView<I>, i: int)
    requires
        !has_dead(v),
        0 <= i <= v.nodes.len(),
    ensures
        rank(v, i) == i,
    decreases i,
{
    if i > 0 {
        law_clean_fixed_point(v, i - 1);
        assert(!is_dead(v, i - 1));
    }
}

/// Compaction keeps every connection between the same logical nodes: a
/// slot of a surviving node still reads the same output of the same driver,
/// both now at their new indices.
pub proof fn law_compaction_keeps_connections<I: Instantiable>(old: NetlistView<I>, new: NetlistView<I>, i: int, j: int)
    requires
        view_wf(old),
        compacted(old, new),
        0 <= i < old.nodes.len(),
        !is_dead(old, i),
        0 <= j < old.nodes[i].operands.len(),
        old.nodes[i].operands[j] is Some,
    ensures
        ({
            let op = old.nodes[i].operands[j].unwrap();
            let d = op_root(op) as int;
            &&& !is_dead(old, d)
            &&& new.nodes[rank(old, i) as int].object == old.nodes[i].object
            &&& new.nodes[rank(old, i) as int].operands[j] is Some
            &&& op_root(new.nodes[rank(old, i) as int].operands[j].unwrap()) == rank(old, d)
            &&& op_secondary(new.nodes[rank(old, i) as int].operands[j].unwrap()) == op_secondary(op)
            &&& new.nodes[rank(old, d) as int].object == old.nodes[d].object
        }),
{
    let op = old.nodes[i].operands[j].unwrap();
    assert(old.nodes[i].operands[j] == Some(op));
    lemma_addressed_survives(old, op);
    lemma_remap_valid(old, new, op);
    assert(moved_node(old, i, new.nodes[rank(old, i) as int]));
    let d = op_root(op) as int;
    assert(moved_node(old, d, new.nodes[rank(old, d) as int]));
    lemma_rank_mono(old, d, d);
}

/// Exposing an output under a name binds that output to the name, and
/// leaves the nets of the nodes unchanged: reading the outputs back gives
/// the bound name for the operand.
pub proof fn law_expose_round_trip(outs: Seq<(Operand, NetView)>, op: Operand, n: NetView)
    requires
        output_keys_unique(outs),
    ensures
        has_key(outputs_insert(outs, op, n), op),
        outputs_insert(outs, op, n)[out_pos(outputs_insert(outs, op, n), op)] == (op, n),
        output_keys_unique(outputs_insert(outs, op, n)),
{
    let r = outputs_insert(outs, op, n);
    if has_key(outs, op) {
        let k = choose|k: int| 0 <= k < outs.len() && (#[trigger] outs[k]).0 == op;
        assert(r[k].0 == op);
        assert forall|a: int, b: int| 0 <= a < b < r.len() implies (#[trigger] r[a]).0 != (#[trigger] r[b]).0 by {
            assert(outs[a].0 != outs[b].0);
        }
    } else {
        assert(r[outs.len() as int].0 == op);
        assert forall|a: int, b: int| 0 <= a < b < r.len() implies (#[trigger] r[a]).0 != (#[trigger] r[b]).0 by {
            if b < outs.len() {
                assert(outs[a].0 != outs[b].0);
            }
        }
    }
    let c = choose|c: int| 0 <= c < r.len() && (#[trigger] r[c]).0 == op;
    assert(r[c].0 == op);
    if has_key(outs, op) {
        let k = choose|k: int| 0 <= k < outs.len() && (#[trigger] outs[k]).0 == op;
        if c != k {
            assert(r[c].0 != r[k].0);
        }
    } else {
        if c != outs.len() {
            assert(r[c].0 != r[outs.len() as int].0);
        }
    }
}

/// Replacing the uses of `a` by `c` rewires every slot that `a` drove to
/// `c`, and leaves `a` with no use and no top-level output, so that it is
/// dead (unless it is a principal input) and a later clean drops it.
pub proof fn law_replace_frees_old_node<I: Instantiable>(old: NetlistView<I>, new: NetlistView<I>, a: usize, c: usize, b: int, j: int)
    requires
        view_wf(old),
        0 <= a < old.nodes.len(),
        0 <= c < old.nodes.len(),
        a != c,
        nets_at(old, a as int).len() == 1,
        slots_rewritten(old, new, a as nat, Some(Operand::DirectIndex(c))),
        new.outputs == outputs_replaced(old.outputs, Operand::DirectIndex(a), Operand::DirectIndex(c)),
        0 <= b < old.nodes.len(),
        0 <= j < old.nodes[b].operands.len(),
        old.nodes[b].operands[j] matches Some(op) && op_root(op) == a,
    ensures
        new.nodes[b].operands[j] == Some(Operand::DirectIndex(c)),
        !used_by_slot(new, a as int),
        !drives_output(new, a as int),
{
    assert(new.nodes[b].operands[j] == slot_rewrite(old.nodes[b].operands[j], a as nat, Some(Operand::DirectIndex(c))));
    if used_by_slot(new, a as int) {
        let (x, y) = choose|x: int, y: int|
            0 <= x < new.nodes.len() && 0 <= y < new.nodes[x].operands.len() && (#[trigger] new.nodes[x].operands[y]) is Some
                && op_root(new.nodes[x].operands[y].unwrap()) == a;
        assert(new.nodes[x].operands[y] == slot_rewrite(old.nodes[x].operands[y], a as nat, Some(Operand::DirectIndex(c))));
    }
    let oa = Operand::DirectIndex(a);
    let oc = Operand::DirectIndex(c);
    let outs = old.outputs;
    assert forall|k: int| 0 <= k < outs.len() && op_root(outs[k].0) == a implies #[trigger] outs[k].0 == oa by {
        assert(valid_operand(old, outs[k].0));
    }
    if drives_output(new, a as int) {
        let k = choose|k: int| 0 <= k < new.outputs.len() && op_root((#[trigger] new.outputs[k]).0) == a;
        if has_key(outs, oc) {
            if has_key(outs, oa) {
                let p = out_pos(outs, oa);
                let k2 = if k < p { k } else { k + 1 };
                assert(new.outputs[k] == outs[k2]);
                assert(outs[k2].0 == oa);
                assert(outs[p].0 == oa);
            } else {
                assert(new.outputs[k] == outs[k]);
                assert(outs[k].0 == oa);
            }
        } else if has_key(outs, oa) {
            let p = out_pos(outs, oa);
            if k != p {
                assert(new.outputs[k] == outs[k]);
                assert(outs[k].0 == oa);
                assert(outs[p].0 == oa);
            }
        } else {
            assert(new.outputs[k] == outs[k]);
        }
    }
}

/// A node that drives one of its own input slots grows deeper with every
/// level explored.
pub proof fn lemma_self_loop_grows<I>(v: NetlistView<I>, s: int, j: int, k: nat)
    requires
        !is_input_at(v, s),
        0 <= j < v.nodes[s].operands.len(),
        v.nodes[s].operands[j] matches Some(op) && op_root(op) == s,
    ensures
        cdepth(v, s, k) >= k + 1,
    decreases k,
{
    if k > 0 {
        lemma_self_loop_grows(v, s, j, (k - 1) as nat);
        lemma_max_slots_at_least(v, s, v.nodes[s].operands.len() as int, j, (k - 1) as nat);
    }
}

/// The deepest driver is at least as deep as the driver of any one slot.
pub proof fn lemma_max_slots_at_least<I>(v: NetlistView<I>, x: int, m: int, j: int, k: nat)
    requires
        0 <= j < m,
        v.nodes[x].operands[j] is Some,
    ensures
        max_slots(v, x, m, k) >= cdepth(v, op_root(v.nodes[x].operands[j].unwrap()) as int, k),
    decreases m,
{
    if j < m - 1 {
        lemma_max_slots_at_least(v, x, m - 1, j, k);
    }
}

/// Slot `i` of node `x` is driven by node `s`.
pub open spec fn fed_by<I>(v: NetlistView<I>, x: int, i: int, s: int) -> bool {
    v.nodes[x].operands[i] matches Some(op) && op_root(op) == s
}

/// A node on a combinational self-loop, or one that such a node drives,
/// has no combinational depth; when it drives a top-level output,
/// [crate::graph::SimpleCombDepth::build] fails.
pub proof fn law_self_loop_has_no_depth<I>(v: NetlistView<I>, s: int, j: int, x: int, i: int)
    requires
        0 <= s < v.nodes.len(),
        !is_input_at(v, s),
        0 <= j < v.nodes[s].operands.len(),
        v.nodes[s].operands[j] matches Some(op) && op_root(op) == s,
        x == s || (!is_input_at(v, x) && 0 <= i < v.nodes[x].operands.len()
            && fed_by(v, x, i, s)),
    ensures
        comb_depth(v, x) is None,
{
    let n = v.nodes.len();
    lemma_self_loop_grows(v, s, j, n);
    if x != s {
        lemma_self_loop_grows(v, s, j, (n - 1) as nat);
        lemma_max_slots_at_least(v, x, v.nodes[x].operands.len() as int, i, (n - 1) as nat);
    }
}

} // verus!
