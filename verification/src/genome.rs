use vstd::prelude::*;
use crate::activation::Activation;
use crate::cycle;
use crate::node::{Connection, Node};
use crate::pairs::EdgeSet;

verus! {

/// Largest weight magnitude a connection may carry. Keeps every product and
/// sum formed by the compatibility-distance arithmetic inside 128-bit
/// integers.
pub const WEIGHT_CAP: i64 = 0x100_0000_0000;

/// Largest number of connections a genome may hold, for the same reason.
pub const CONN_CAP: usize = 0x4000_0000;

/// Mathematical image of one node: its stable historical identity and its
/// outgoing connections.
pub struct NodeV {
    pub global: usize,
    pub adj: Seq<Connection>,
}

/// Mathematical image of a genome: the node arena with every connection, the
/// layout parameters, and the shared activation. Local ids are the positions
/// in `nodes`.
pub struct GenomeV {
    pub inputs: usize,
    pub outputs: usize,
    pub act: Activation,
    pub nodes: Seq<NodeV>,
}

impl GenomeV {
    /// Number of nodes every genome starts with: inputs, one bias, outputs.
    pub open spec fn base_count(self) -> int {
        self.inputs + self.outputs + 1
    }

    /// Index of the bias node.
    pub open spec fn bias(self) -> int {
        self.inputs as int
    }

    pub open spec fn n(self) -> int {
        self.nodes.len() as int
    }

    /// The genome with one more connection appended to `from`'s adjacency.
    pub open spec fn with_conn(self, from: int, c: Connection) -> GenomeV {
        GenomeV {
            nodes: self.nodes.update(
                from,
                NodeV { global: self.nodes[from].global, adj: self.nodes[from].adj.push(c) },
            ),
            ..self
        }
    }

    /// The genome with one more node appended, holding no connections.
    pub open spec fn with_node(self, global: usize) -> GenomeV {
        GenomeV { nodes: self.nodes.push(NodeV { global, adj: Seq::empty() }), ..self }
    }

    /// Every connection of `from` aimed at `to` with its active flag set to
    /// `val`; all other connections unchanged.
    pub open spec fn with_active(self, from: int, to: usize, val: bool) -> GenomeV {
        GenomeV {
            nodes: self.nodes.update(
                from,
                NodeV {
                    global: self.nodes[from].global,
                    adj: adj_with_active(self.nodes[from].adj, to, val),
                },
            ),
            ..self
        }
    }

    /// The genome with node `from`'s last connection removed.
    pub open spec fn without_last_conn(self, from: int) -> GenomeV {
        GenomeV {
            nodes: self.nodes.update(
                from,
                NodeV {
                    global: self.nodes[from].global,
                    adj: self.nodes[from].adj.drop_last(),
                },
            ),
            ..self
        }
    }

    /// Whether some active connection runs from local id `a` to local id `b`.
    pub open spec fn live_pair(self, a: usize, b: usize) -> bool {
        (a as int) < self.n() && exists|j: int|
            0 <= j < self.nodes[a as int].adj.len() && (#[trigger] self.nodes[a as int].adj[j]).active
                && self.nodes[a as int].adj[j].to == b
    }

    /// No connection of the genome carries innovation number `x`.
    pub open spec fn fresh_inno(self, x: usize) -> bool {
        forall|i: int, j: int|
            0 <= i < self.n() && 0 <= j < self.nodes[i].adj.len() ==> (#[trigger] self
                .nodes[i].adj[j]).inno_number != x
    }

    /// No node of the genome carries global id `x`.
    pub open spec fn fresh_global(self, x: usize) -> bool {
        forall|i: int| 0 <= i < self.n() ==> (#[trigger] self.nodes[i]).global != x
    }

    /// Structural sanity of the node arena: the base nodes keep their
    /// identity ids, global ids never repeat, connections point at valid
    /// targets other than their own source, one source never holds two
    /// connections to the same target, innovation numbers never repeat, and
    /// weights stay inside the cap.
    pub open spec fn nodes_ok(self) -> bool {
        &&& self.n() >= self.base_count()
        &&& forall|i: int| 0 <= i < self.base_count() ==> (#[trigger] self.nodes[i]).global == i
        &&& forall|i: int, j: int|
            0 <= i < j < self.n() ==> (#[trigger] self.nodes[i]).global != (#[trigger] self
                .nodes[j]).global
        &&& forall|i: int, j: int|
            0 <= i < self.n() && 0 <= j < self.nodes[i].adj.len() ==> {
                let c = #[trigger] self.nodes[i].adj[j];
                &&& (c.to as int) < self.n()
                &&& c.to != i
                &&& -WEIGHT_CAP <= c.weight <= WEIGHT_CAP
            }
        &&& forall|i: int, j1: int, j2: int|
            0 <= i < self.n() && 0 <= j1 < j2 < self.nodes[i].adj.len() ==> (#[trigger] self
                .nodes[i].adj[j1]).to != (#[trigger] self.nodes[i].adj[j2]).to
        &&& forall|i1: int, j1: int, i2: int, j2: int|
            0 <= i1 < self.n() && 0 <= j1 < self.nodes[i1].adj.len() && 0 <= i2 < self.n() && 0
                <= j2 < self.nodes[i2].adj.len() && (i1 != i2 || j1 != j2) ==> (#[trigger] self
                .nodes[i1].adj[j1]).inno_number != (#[trigger] self.nodes[i2].adj[j2]).inno_number
    }
}

/// An adjacency list with the active flag of every connection to `to` set to
/// `val`.
pub open spec fn adj_with_active(adj: Seq<Connection>, to: usize, val: bool) -> Seq<Connection> {
    Seq::new(
        adj.len(),
        |j: int|
            if adj[j].to == to {
                Connection { active: val, ..adj[j] }
            } else {
                adj[j]
            },
    )
}

/// The weight of the (unique, when targets are distinct) connection to `to`.
pub open spec fn weight_to(adj: Seq<Connection>, to: usize) -> i64 {
    adj[choose|j: int| 0 <= j < adj.len() && (#[trigger] adj[j]).to == to].weight
}

/// Number of active connections in one adjacency list.
pub open spec fn count_active(adj: Seq<Connection>) -> int
    decreases adj.len(),
{
    if adj.len() == 0 {
        0
    } else {
        count_active(adj.drop_last()) + if adj.last().active {
            1int
        } else {
            0int
        }
    }
}

/// Number of active connections among the first `k` nodes.
pub open spec fn total_active_upto(nodes: Seq<NodeV>, k: int) -> int
    decreases k,
{
    if k <= 0 {
        0
    } else {
        total_active_upto(nodes, k - 1) + count_active(nodes[k - 1].adj)
    }
}

pub open spec fn total_active(g: GenomeV) -> int {
    total_active_upto(g.nodes, g.n())
}

/// Number of connections, active or not, among the first `k` nodes.
pub open spec fn total_len_upto(nodes: Seq<NodeV>, k: int) -> int
    decreases k,
{
    if k <= 0 {
        0
    } else {
        total_len_upto(nodes, k - 1) + nodes[k - 1].adj.len()
    }
}

pub open spec fn total_len(g: GenomeV) -> int {
    total_len_upto(g.nodes, g.n())
}

pub proof fn lemma_count_active_push(adj: Seq<Connection>, c: Connection)
    ensures
        count_active(adj.push(c)) == count_active(adj) + if c.active {
            1int
        } else {
            0int
        },
{
    assert(adj.push(c).drop_last() =~= adj);
}


/// Changing node `i` shifts the running total by exactly that node's change;
/// untouched prefixes agree.
pub proof fn lemma_total_active_upto_update(nodes: Seq<NodeV>, i: int, x: NodeV, k: int)
    requires
        0 <= i < nodes.len(),
        0 <= k <= nodes.len(),
    ensures
        total_active_upto(nodes.update(i, x), k) == total_active_upto(nodes, k) + if i < k {
            count_active(x.adj) - count_active(nodes[i].adj)
        } else {
            0int
        },
    decreases k,
{
    if k > 0 {
        lemma_total_active_upto_update(nodes, i, x, k - 1);
    }
}

pub proof fn lemma_total_len_upto_update(nodes: Seq<NodeV>, i: int, x: NodeV, k: int)
    requires
        0 <= i < nodes.len(),
        0 <= k <= nodes.len(),
    ensures
        total_len_upto(nodes.update(i, x), k) == total_len_upto(nodes, k) + if i < k {
            x.adj.len() - nodes[i].adj.len()
        } else {
            0int
        },
    decreases k,
{
    if k > 0 {
        lemma_total_len_upto_update(nodes, i, x, k - 1);
    }
}

/// Appending a node leaves the totals over any prefix of the old nodes
/// unchanged.
pub proof fn lemma_total_upto_push(nodes: Seq<NodeV>, x: NodeV, k: int)
    requires
        0 <= k <= nodes.len(),
    ensures
        total_active_upto(nodes.push(x), k) == total_active_upto(nodes, k),
        total_len_upto(nodes.push(x), k) == total_len_upto(nodes, k),
    decreases k,
{
    if k > 0 {
        lemma_total_upto_push(nodes, x, k - 1);
    }
}

/// A prefix of nodes with empty adjacencies contributes nothing.
pub proof fn lemma_total_upto_empty(nodes: Seq<NodeV>, k: int)
    requires
        0 <= k <= nodes.len(),
        forall|i: int| 0 <= i < k ==> (#[trigger] nodes[i]).adj.len() == 0,
    ensures
        total_active_upto(nodes, k) == 0,
        total_len_upto(nodes, k) == 0,
    decreases k,
{
    if k > 0 {
        lemma_total_upto_empty(nodes, k - 1);
        assert(nodes[k - 1].adj =~= Seq::<Connection>::empty());
    }
}

/// The totals never go negative and the active count never exceeds the
/// connection count.
pub proof fn lemma_totals_bounds(nodes: Seq<NodeV>, k: int)
    requires
        0 <= k <= nodes.len(),
    ensures
        0 <= total_active_upto(nodes, k) <= total_len_upto(nodes, k),
    decreases k,
{
    if k > 0 {
        lemma_totals_bounds(nodes, k - 1);
        lemma_count_active_bounds(nodes[k - 1].adj);
    }
}

pub proof fn lemma_count_active_bounds(adj: Seq<Connection>)
    ensures
        0 <= count_active(adj) <= adj.len(),
    decreases adj.len(),
{
    if adj.len() > 0 {
        lemma_count_active_bounds(adj.drop_last());
    }
}

/// Prefix totals never shrink as the prefix grows.
pub proof fn lemma_total_len_mono(nodes: Seq<NodeV>, k1: int, k2: int)
    requires
        0 <= k1 <= k2 <= nodes.len(),
    ensures
        total_len_upto(nodes, k1) <= total_len_upto(nodes, k2),
    decreases k2 - k1,
{
    if k1 < k2 {
        lemma_total_len_mono(nodes, k1, k2 - 1);
        lemma_totals_bounds(nodes, k2 - 1);
        assert(nodes[k2 - 1].adj.len() >= 0);
    }
}

/// The connection total over a prefix is at least any single node's share.
pub proof fn lemma_total_len_lower(nodes: Seq<NodeV>, k: int, i: int)
    requires
        0 <= i < k <= nodes.len(),
    ensures
        total_len_upto(nodes, k) >= nodes[i].adj.len(),
    decreases k,
{
    if i < k - 1 {
        lemma_total_len_lower(nodes, k - 1, i);
        lemma_total_len_nonneg_step(nodes, k);
    } else {
        lemma_totals_bounds(nodes, k - 1);
    }
}

pub proof fn lemma_total_len_nonneg_step(nodes: Seq<NodeV>, k: int)
    requires
        0 < k <= nodes.len(),
    ensures
        total_len_upto(nodes, k) >= total_len_upto(nodes, k - 1),
{
}

/// Range random weights are drawn from, and the clamp bound for weight
/// perturbation.
pub const MAX_WEIGHT: i64 = 8;

/// A value clamped into the weight range.
pub open spec fn clamp_weight(x: int) -> int {
    if x > MAX_WEIGHT {
        MAX_WEIGHT as int
    } else if x < -MAX_WEIGHT {
        -MAX_WEIGHT as int
    } else {
        x
    }
}

/// `w1` is `w0` nudged by at most one unit and clamped into the weight range.
pub open spec fn clamped_step(w0: int, w1: int) -> bool {
    exists|d: int| -1 <= d <= 1 && w1 == #[trigger] clamp_weight(w0 + d)
}

/// `g2` is `g1` with the weights of the connections before row `i`, column
/// `k` replaced by clamped values; everything else agrees.
pub open spec fn reweighted(g1: GenomeV, g2: GenomeV, i: int, k: int) -> bool {
    &&& g2.nodes.len() == g1.nodes.len()
    &&& forall|i2: int|
        0 <= i2 < g1.nodes.len() ==> (#[trigger] g2.nodes[i2]).global == g1.nodes[i2].global
            && g2.nodes[i2].adj.len() == g1.nodes[i2].adj.len()
    &&& forall|i2: int, j: int|
        0 <= i2 < g1.nodes.len() && 0 <= j < g1.nodes[i2].adj.len() ==> {
            let c2 = #[trigger] g2.nodes[i2].adj[j];
            let c1 = g1.nodes[i2].adj[j];
            &&& c2.to == c1.to
            &&& c2.inno_number == c1.inno_number
            &&& c2.active == c1.active
            &&& if i2 < i || (i2 == i && j < k) {
                -MAX_WEIGHT <= c2.weight <= MAX_WEIGHT
            } else {
                c2.weight == c1.weight
            }
        }
}

/// A genome that differs from a well-formed one only in (capped) connection
/// weights is well-formed again.
pub proof fn lemma_wf_same_shape(g1: Genome, g2: Genome)
    requires
        g1.wf(),
        g2.input_nodes == g1.input_nodes,
        g2.output_nodes == g1.output_nodes,
        g2.hidden_nodes == g1.hidden_nodes,
        g2.num_nodes == g1.num_nodes,
        g2.num_connections == g1.num_connections,
        g2.act == g1.act,
        g2.edges == g1.edges,
        g2.nodes@.len() == g1.nodes@.len(),
        forall|i: int|
            0 <= i < g2.nodes@.len() ==> (#[trigger] g2.nodes@[i]).local_id == g1.nodes@[i].local_id
                && g2.nodes@[i].act == g1.nodes@[i].act,
        forall|i: int|
            0 <= i < g2@.nodes.len() ==> (#[trigger] g2@.nodes[i]).global == g1@.nodes[i].global
                && g2@.nodes[i].adj.len() == g1@.nodes[i].adj.len(),
        forall|i: int, j: int|
            0 <= i < g2@.nodes.len() && 0 <= j < g2@.nodes[i].adj.len() ==> {
                let c2 = #[trigger] g2@.nodes[i].adj[j];
                let c1 = g1@.nodes[i].adj[j];
                &&& c2.to == c1.to
                &&& c2.inno_number == c1.inno_number
                &&& c2.active == c1.active
                &&& -WEIGHT_CAP <= c2.weight <= WEIGHT_CAP
            },
    ensures
        g2.wf(),
{
    let v1 = g1@;
    let v2 = g2@;
    assert forall|i: int, j1: int, j2: int|
        0 <= i < v2.n() && 0 <= j1 < j2 < v2.nodes[i].adj.len() implies (#[trigger] v2.nodes[
    i].adj[j1]).to != (#[trigger] v2.nodes[i].adj[j2]).to by {
        assert(v2.nodes[i].adj[j1].to == v1.nodes[i].adj[j1].to);
        assert(v2.nodes[i].adj[j2].to == v1.nodes[i].adj[j2].to);
    }
    assert forall|i1: int, j1: int, i2: int, j2: int|
        0 <= i1 < v2.n() && 0 <= j1 < v2.nodes[i1].adj.len() && 0 <= i2 < v2.n() && 0 <= j2
            < v2.nodes[i2].adj.len() && (i1 != i2 || j1 != j2) implies (#[trigger] v2.nodes[
    i1].adj[j1]).inno_number != (#[trigger] v2.nodes[i2].adj[j2]).inno_number by {
        assert(v2.nodes[i1].adj[j1].inno_number == v1.nodes[i1].adj[j1].inno_number);
        assert(v2.nodes[i2].adj[j2].inno_number == v1.nodes[i2].adj[j2].inno_number);
    }
    assert(v2.nodes_ok());
    assert forall|i: int| 0 <= i < v1.nodes.len() implies (#[trigger] v2.nodes[i]).adj.len()
        == v1.nodes[i].adj.len() && count_active(v2.nodes[i].adj) == count_active(
        v1.nodes[i].adj,
    ) by {
        lemma_count_active_same(v1.nodes[i].adj, v2.nodes[i].adj);
    }
    lemma_totals_same(v1.nodes, v2.nodes, v1.nodes.len() as int);
    let r = choose|r: Seq<int>| cycle::valid_rank(v1, r);
    cycle::lemma_rank_for_weaker(v1, v2, r);
    lemma_live_same(v1, v2);
    assert forall|a: usize, b: usize|
        #![trigger g2.edges.spec_contains(a, b)]
        #![trigger v2.live_pair(a, b)]
        g2.edges.spec_contains(a, b) <==> (a != g2.input_nodes && v2.live_pair(a, b)) by {
        assert(v2.live_pair(a, b) == v1.live_pair(a, b));
        assert(g1.edges.spec_contains(a, b) <==> (a != g1.input_nodes && v1.live_pair(a, b)));
    }
}

/// When every connection is active the two totals agree.
pub proof fn lemma_count_all_active(adj: Seq<Connection>)
    requires
        forall|j: int| 0 <= j < adj.len() ==> (#[trigger] adj[j]).active,
    ensures
        count_active(adj) == adj.len(),
    decreases adj.len(),
{
    if adj.len() > 0 {
        assert forall|j: int| 0 <= j < adj.drop_last().len() implies (#[trigger] adj.drop_last()[
        j]).active by {
            assert(adj.drop_last()[j] == adj[j]);
        }
        lemma_count_all_active(adj.drop_last());
    }
}

pub proof fn lemma_total_len_eq_active(nodes: Seq<NodeV>, k: int)
    requires
        0 <= k <= nodes.len(),
        forall|i: int, j: int|
            0 <= i < nodes.len() && 0 <= j < nodes[i].adj.len() ==> (#[trigger] nodes[
                i].adj[j]).active,
    ensures
        total_len_upto(nodes, k) == total_active_upto(nodes, k),
    decreases k,
{
    if k > 0 {
        lemma_total_len_eq_active(nodes, k - 1);
        assert forall|j: int| 0 <= j < nodes[k - 1].adj.len() implies (#[trigger] nodes[k
            - 1].adj[j]).active by {}
        lemma_count_all_active(nodes[k - 1].adj);
    }
}

/// Flags alone decide the active count.
pub proof fn lemma_count_active_same(a1: Seq<Connection>, a2: Seq<Connection>)
    requires
        a1.len() == a2.len(),
        forall|j: int| 0 <= j < a1.len() ==> (#[trigger] a2[j]).active == a1[j].active,
    ensures
        count_active(a2) == count_active(a1),
    decreases a1.len(),
{
    if a1.len() > 0 {
        assert forall|j: int|
            0 <= j < a1.drop_last().len() implies (#[trigger] a2.drop_last()[j]).active == a1
            .drop_last()[j].active by {
            assert(a2.drop_last()[j] == a2[j] && a1.drop_last()[j] == a1[j]);
        }
        lemma_count_active_same(a1.drop_last(), a2.drop_last());
    }
}

/// Node-for-node equal counts give equal totals.
pub proof fn lemma_totals_same(n1: Seq<NodeV>, n2: Seq<NodeV>, k: int)
    requires
        n1.len() == n2.len(),
        0 <= k <= n1.len(),
        forall|i: int|
            0 <= i < n1.len() ==> (#[trigger] n2[i]).adj.len() == n1[i].adj.len() && count_active(
                n2[i].adj,
            ) == count_active(n1[i].adj),
    ensures
        total_active_upto(n2, k) == total_active_upto(n1, k),
        total_len_upto(n2, k) == total_len_upto(n1, k),
    decreases k,
{
    if k > 0 {
        lemma_totals_same(n1, n2, k - 1);
    }
}

/// Identical targets and flags give identical live pairs.
pub proof fn lemma_live_same(g1: GenomeV, g2: GenomeV)
    requires
        g1.nodes.len() == g2.nodes.len(),
        forall|i: int|
            0 <= i < g1.nodes.len() ==> (#[trigger] g2.nodes[i]).adj.len() == g1.nodes[i].adj.len(),
        forall|i: int, j: int|
            0 <= i < g1.nodes.len() && 0 <= j < g1.nodes[i].adj.len() ==> (#[trigger] g2.nodes[
                i].adj[j]).to == g1.nodes[i].adj[j].to && g2.nodes[i].adj[j].active == g1.nodes[
                i].adj[j].active,
    ensures
        forall|a: usize, b: usize| #[trigger] g2.live_pair(a, b) == g1.live_pair(a, b),
{
    assert forall|a: usize, b: usize| #[trigger] g2.live_pair(a, b) == g1.live_pair(a, b) by {
        if (a as int) < g1.nodes.len() {
            if g1.live_pair(a, b) {
                let j = choose|j: int|
                    0 <= j < g1.nodes[a as int].adj.len() && (#[trigger] g1.nodes[
                        a as int].adj[j]).active && g1.nodes[a as int].adj[j].to == b;
                assert(g2.nodes[a as int].adj[j].active && g2.nodes[a as int].adj[j].to == b);
                assert(g2.live_pair(a, b));
            }
            if g2.live_pair(a, b) {
                let j = choose|j: int|
                    0 <= j < g2.nodes[a as int].adj.len() && (#[trigger] g2.nodes[
                        a as int].adj[j]).active && g2.nodes[a as int].adj[j].to == b;
                assert(g1.nodes[a as int].adj[j].active && g1.nodes[a as int].adj[j].to == b);
                assert(g1.live_pair(a, b));
            }
        }
    }
}

/// An active connection witnesses a positive count.
pub proof fn lemma_count_active_pos(adj: Seq<Connection>, m: int)
    requires
        0 <= m < adj.len(),
        adj[m].active,
    ensures
        count_active(adj) >= 1,
    decreases adj.len(),
{
    lemma_count_active_bounds(adj.drop_last());
    if m < adj.len() - 1 {
        assert(adj.drop_last()[m] == adj[m]);
        lemma_count_active_pos(adj.drop_last(), m);
    }
}

/// The total over a prefix is at least any single node's share.
pub proof fn lemma_total_active_lower(nodes: Seq<NodeV>, k: int, i: int)
    requires
        0 <= i < k <= nodes.len(),
    ensures
        total_active_upto(nodes, k) >= count_active(nodes[i].adj),
        count_active(nodes[i].adj) >= 0,
    decreases k,
{
    lemma_count_active_bounds(nodes[i].adj);
    lemma_count_active_bounds(nodes[k - 1].adj);
    if i < k - 1 {
        lemma_total_active_lower(nodes, k - 1, i);
    } else {
        lemma_totals_bounds(nodes, k - 1);
    }
}

/// When no connection aims at `to`, retargeting the flag changes nothing.
pub proof fn lemma_adj_with_active_absent(adj: Seq<Connection>, to: usize, val: bool)
    requires
        forall|j: int| 0 <= j < adj.len() ==> (#[trigger] adj[j]).to != to,
    ensures
        adj_with_active(adj, to, val) == adj,
{
    assert(adj_with_active(adj, to, val) =~= adj);
}

/// Flag already equal: the rewrite is the identity.
pub proof fn lemma_adj_with_active_same(adj: Seq<Connection>, to: usize, val: bool)
    requires
        forall|j: int|
            0 <= j < adj.len() && (#[trigger] adj[j]).to == to ==> adj[j].active == val,
    ensures
        adj_with_active(adj, to, val) == adj,
{
    assert(adj_with_active(adj, to, val) =~= adj);
}

/// With at most one connection per target, flipping the flag of the single
/// match moves the active count by exactly the flag difference.
pub proof fn lemma_count_with_active_at(adj: Seq<Connection>, to: usize, val: bool, m: int)
    requires
        forall|j1: int, j2: int|
            0 <= j1 < j2 < adj.len() ==> (#[trigger] adj[j1]).to != (#[trigger] adj[j2]).to,
        0 <= m < adj.len(),
        adj[m].to == to,
    ensures
        count_active(adj_with_active(adj, to, val)) == count_active(adj) + (if val {
            1int
        } else {
            0int
        }) - (if adj[m].active {
            1int
        } else {
            0int
        }),
    decreases adj.len(),
{
    let a2 = adj_with_active(adj, to, val);
    assert(a2.drop_last() =~= adj_with_active(adj.drop_last(), to, val));
    if m == adj.len() - 1 {
        assert forall|j: int| 0 <= j < adj.drop_last().len() implies (#[trigger] adj.drop_last()[
        j]).to != to by {
            assert(adj.drop_last()[j] == adj[j]);
        }
        lemma_adj_with_active_absent(adj.drop_last(), to, val);
        assert(a2.last() == Connection { active: val, ..adj[m] });
    } else {
        assert(adj.last().to != to);
        assert(a2.last() == adj.last());
        assert(adj.drop_last()[m] == adj[m]);
        lemma_count_with_active_at(adj.drop_last(), to, val, m);
    }
}

/// One genome of the population: the node arena, the layout parameters, the
/// set of live non-bias edges kept for random selection, and the counters
/// that mirror the arena.
pub struct Genome {
    pub input_nodes: usize,
    pub output_nodes: usize,
    pub hidden_nodes: usize,
    pub nodes: Vec<Node>,
    pub num_nodes: usize,
    pub num_connections: usize,
    pub edges: EdgeSet,
    pub act: Activation,
}

impl View for Genome {
    type V = GenomeV;

    open spec fn view(&self) -> GenomeV {
        GenomeV {
            inputs: self.input_nodes,
            outputs: self.output_nodes,
            act: self.act,
            nodes: self.nodes@.map(|i: int, n: Node| NodeV { global: n.global_id, adj: n.adj@ }),
        }
    }
}

impl Genome {
    /// The edge set holds exactly the live pairs that do not originate at the
    /// bias node.
    pub open spec fn edges_match(self) -> bool {
        forall|a: usize, b: usize|
            #![trigger self.edges.spec_contains(a, b)]
            #![trigger self@.live_pair(a, b)]
            self.edges.spec_contains(a, b) <==> (a != self.input_nodes && self@.live_pair(a, b))
    }

    /// Everything the genome promises of itself except acyclicity: the arena
    /// is sane, local ids and the activation are uniform, the counters mirror
    /// the arena, and the edge set mirrors the live pairs.
    pub open spec fn wf_graph(self) -> bool {
        &&& self@.nodes_ok()
        &&& self.num_nodes == self.nodes@.len()
        &&& self.input_nodes + self.output_nodes + 1 <= self.num_nodes
        &&& self.hidden_nodes == self.num_nodes - (self.input_nodes + self.output_nodes + 1)
        &&& forall|i: int| 0 <= i < self.nodes@.len() ==> (#[trigger] self.nodes@[i]).local_id == i
        &&& forall|i: int| 0 <= i < self.nodes@.len() ==> (#[trigger] self.nodes@[i]).act == self.act
        &&& self.num_connections == total_active(self@)
        &&& total_len(self@) <= CONN_CAP
        &&& self.edges.distinct()
        &&& self.edges_match()
    }

    /// Well-formedness: a sane arena whose active connections form a directed
    /// acyclic graph.
    pub open spec fn wf(self) -> bool {
        self.wf_graph() && cycle::acyclic(self@)
    }

    /// A fresh genome: `input_nodes` inputs, one bias node directly after
    /// them, `output_nodes` outputs, no hidden nodes and no connections.
    pub fn new(input_nodes: usize, output_nodes: usize, act: Activation) -> (g: Genome)
        requires
            input_nodes + output_nodes + 1 <= usize::MAX,
        ensures
            g.wf(),
            g.input_nodes == input_nodes,
            g.output_nodes == output_nodes,
            g.hidden_nodes == 0,
            g.num_nodes == input_nodes + output_nodes + 1,
            g.num_connections == 0,
            g.act == act,
            g@.nodes.len() == input_nodes + output_nodes + 1,
            forall|i: int|
                0 <= i < g@.nodes.len() ==> (#[trigger] g@.nodes[i]).global == i && g@.nodes[i].adj
                    =~= Seq::<Connection>::empty(),
            g.edges.items@.len() == 0,
    {
        let num_nodes = input_nodes + output_nodes + 1;
        let mut nodes: Vec<Node> = Vec::new();
        let mut i: usize = 0;
        while i < num_nodes
            invariant
                0 <= i <= num_nodes,
                nodes@.len() == i,
                forall|j: int|
                    0 <= j < i ==> {
                        let n = #[trigger] nodes@[j];
                        n.local_id == j && n.global_id == j && n.act == act && n.adj@.len() == 0
                    },
            decreases num_nodes - i,
        {
            nodes.push(Node::new(i, i, act));
            i += 1;
        }
        let g = Genome {
            nodes,
            input_nodes,
            output_nodes,
            hidden_nodes: 0,
            num_nodes,
            num_connections: 0,
            act,
            edges: EdgeSet::new(),
        };
        proof {
            assert forall|j: int| 0 <= j < g@.nodes.len() implies (#[trigger] g@.nodes[j]).global
                == j && g@.nodes[j].adj =~= Seq::<Connection>::empty() by {
                assert(g@.nodes[j].adj == g.nodes@[j].adj@);
            }
            lemma_total_upto_empty(g@.nodes, g@.n());
            assert(cycle::valid_rank(g@, Seq::new(g@.nodes.len(), |i: int| 0int)));
            assert forall|a: usize, b: usize|
                g.edges.spec_contains(a, b) <==> (a != g.input_nodes && g@.live_pair(a, b)) by {
                assert(!g.edges.spec_contains(a, b));
                if g@.live_pair(a, b) {
                    let j = choose|j: int|
                        0 <= j < g@.nodes[a as int].adj.len() && (#[trigger] g@.nodes[a as int].adj[j]).active && g@.nodes[a as int].adj[j].to == b;
                }
            }
        }
        g
    }

    /// Whether a node with the given historical identity is present.
    pub fn node_exists(&self, inno_number: usize) -> (r: bool)
        requires
            self.wf_graph(),
        ensures
            r == !self@.fresh_global(inno_number),
    {
        let mut i: usize = 0;
        while i < self.nodes.len()
            invariant
                0 <= i <= self.nodes@.len(),
                forall|j: int| 0 <= j < i ==> (#[trigger] self@.nodes[j]).global != inno_number,
            decreases self.nodes@.len() - i,
        {
            if self.nodes[i].global_id == inno_number {
                assert(self@.nodes[i as int].global == inno_number);
                return true;
            }
            assert(self@.nodes[i as int].global == self.nodes@[i as int].global_id);
            i += 1;
        }
        false
    }

    /// Global (historical) id of the node at a local index.
    pub fn local_to_global(&self, local_id: usize) -> (r: usize)
        requires
            local_id < self.nodes@.len(),
        ensures
            r == self@.nodes[local_id as int].global,
    {
        self.nodes[local_id].global_id
    }

    /// Appends a hidden node carrying the given historical identity and
    /// returns its local id.
    pub fn add_node(&mut self, inno_number: usize) -> (r: usize)
        requires
            old(self).wf(),
            old(self)@.fresh_global(inno_number),
            old(self).num_nodes < usize::MAX,
        ensures
            final(self).wf(),
            final(self)@ == old(self)@.with_node(inno_number),
            r == old(self).num_nodes,
            final(self).num_nodes == old(self).num_nodes + 1,
            final(self).hidden_nodes == old(self).hidden_nodes + 1,
            final(self).num_connections == old(self).num_connections,
            final(self).input_nodes == old(self).input_nodes,
            final(self).output_nodes == old(self).output_nodes,
            final(self).act == old(self).act,
            final(self).edges == old(self).edges,
    {
        let ghost gv = old(self)@;
        let id = self.num_nodes;
        let node = Node::new(id, inno_number, self.act);
        self.nodes.push(node);
        self.num_nodes = self.num_nodes + 1;
        self.hidden_nodes = self.hidden_nodes + 1;
        proof {
            let nv = gv.with_node(inno_number);
            assert(self@.nodes =~= nv.nodes);
            assert(self@ == nv);
            let n = nv.n();
            // structural sanity of the extended arena
            assert forall|i: int, j: int|
                0 <= i < j < n implies (#[trigger] nv.nodes[i]).global != (#[trigger] nv.nodes[
                j]).global by {
                if j < n - 1 {
                    assert(nv.nodes[i] == gv.nodes[i] && nv.nodes[j] == gv.nodes[j]);
                } else {
                    assert(nv.nodes[i] == gv.nodes[i]);
                    assert(gv.nodes[i].global != inno_number);
                }
            }
            assert(nv.nodes_ok());
            lemma_total_upto_push(gv.nodes, nv.nodes[n - 1], gv.n());
            assert(total_active(nv) == total_active_upto(nv.nodes, n - 1) + count_active(
                nv.nodes[n - 1].adj,
            ));
            assert(total_active(nv) == total_active(gv));
            assert(total_len(nv) == total_len(gv));
            let r = choose|r: Seq<int>| cycle::valid_rank(gv, r);
            cycle::lemma_rank_push_node(gv, inno_number, r);
            assert forall|a: usize, b: usize|
                self.edges.spec_contains(a, b) <==> (a != self.input_nodes && self@.live_pair(
                    a,
                    b,
                )) by {
                if (a as int) < n - 1 {
                    assert(nv.nodes[a as int] == gv.nodes[a as int]);
                    assert(nv.live_pair(a, b) == gv.live_pair(a, b));
                } else if (a as int) == n - 1 {
                    assert(nv.nodes[a as int].adj.len() == 0);
                    assert(!nv.live_pair(a, b));
                    assert(!gv.live_pair(a, b));
                } else {
                    assert(!nv.live_pair(a, b) && !gv.live_pair(a, b));
                }
            }
        }
        id
    }

    /// Appends the connection `from -> to`. The caller must already have
    /// ruled out a cycle: an active connection is only accepted together with
    /// a cycle-free extended graph.
    pub fn add_edge(&mut self, from: usize, to: usize, inno_number: usize, weight: i64, active: bool)
        requires
            old(self).wf(),
            from < old(self).num_nodes,
            to < old(self).num_nodes,
            from != to,
            !Node::spec_edge_exists(old(self)@.nodes[from as int].adj, to),
            old(self)@.fresh_inno(inno_number),
            -WEIGHT_CAP <= weight <= WEIGHT_CAP,
            total_len(old(self)@) < CONN_CAP,
            active ==> cycle::acyclic(
                old(self)@.with_conn(
                    from as int,
                    Connection { to, inno_number, active: true, weight },
                ),
            ),
        ensures
            final(self).wf(),
            final(self)@ == old(self)@.with_conn(
                from as int,
                Connection { to, inno_number, active, weight },
            ),
            final(self).num_connections == old(self).num_connections + if active {
                1int
            } else {
                0int
            },
            final(self).num_nodes == old(self).num_nodes,
            final(self).hidden_nodes == old(self).hidden_nodes,
            final(self).input_nodes == old(self).input_nodes,
            final(self).output_nodes == old(self).output_nodes,
            final(self).act == old(self).act,
            forall|a: usize, b: usize|
                #![trigger final(self).edges.spec_contains(a, b)]
                final(self).edges.spec_contains(a, b) <==> (old(self).edges.spec_contains(a, b)
                    || (a == from && b == to && active && from != old(self).input_nodes)),
    {
        let ghost gv = old(self)@;
        let ghost c = Connection { to, inno_number, active, weight };
        if active && from != self.input_nodes {
            proof {
                if self.edges.spec_contains(from, to) {
                    assert(gv.live_pair(from, to));
                }
            }
            self.edges.insert(from, to);
        }
        let node = &mut self.nodes[from];
        node.add_edge(inno_number, weight, active, to);
        if active {
            proof {
                lemma_totals_bounds(gv.nodes, gv.n());
            }
            self.num_connections = self.num_connections + 1;
        }
        proof {
            let nv = gv.with_conn(from as int, c);
            assert(self@.nodes =~= nv.nodes);
            assert(self@ == nv);
            let n = nv.n();
            let fadj = nv.nodes[from as int].adj;
            let oadj = gv.nodes[from as int].adj;
            assert(fadj == oadj.push(c));
            // structural sanity of the extended arena
            assert forall|i: int, j: int|
                0 <= i < n && 0 <= j < nv.nodes[i].adj.len() implies {
                    let cc = #[trigger] nv.nodes[i].adj[j];
                    (cc.to as int) < n && cc.to != i && -WEIGHT_CAP <= cc.weight <= WEIGHT_CAP
                } by {
                if i == from && j == oadj.len() {
                    assert(nv.nodes[i].adj[j] == c);
                } else {
                    assert(nv.nodes[i].adj[j] == gv.nodes[i].adj[j]);
                }
            }
            assert forall|i: int, j1: int, j2: int|
                0 <= i < n && 0 <= j1 < j2 < nv.nodes[i].adj.len() implies (#[trigger] nv.nodes[
                i].adj[j1]).to != (#[trigger] nv.nodes[i].adj[j2]).to by {
                if i == from && j2 == oadj.len() {
                    assert(nv.nodes[i].adj[j1] == gv.nodes[i].adj[j1]);
                    assert(nv.nodes[i].adj[j2] == c);
                } else {
                    assert(nv.nodes[i].adj[j1] == gv.nodes[i].adj[j1]);
                    assert(nv.nodes[i].adj[j2] == gv.nodes[i].adj[j2]);
                }
            }
            assert forall|i1: int, j1: int, i2: int, j2: int|
                0 <= i1 < n && 0 <= j1 < nv.nodes[i1].adj.len() && 0 <= i2 < n && 0 <= j2
                    < nv.nodes[i2].adj.len() && (i1 != i2 || j1 != j2) implies (#[trigger] nv.nodes[
                i1].adj[j1]).inno_number != (#[trigger] nv.nodes[i2].adj[j2]).inno_number by {
                let new1 = i1 == from && j1 == oadj.len();
                let new2 = i2 == from && j2 == oadj.len();
                if new1 && !new2 {
                    assert(nv.nodes[i2].adj[j2] == gv.nodes[i2].adj[j2]);
                    assert(gv.nodes[i2].adj[j2].inno_number != inno_number);
                } else if !new1 && new2 {
                    assert(nv.nodes[i1].adj[j1] == gv.nodes[i1].adj[j1]);
                    assert(gv.nodes[i1].adj[j1].inno_number != inno_number);
                } else if !new1 && !new2 {
                    assert(nv.nodes[i1].adj[j1] == gv.nodes[i1].adj[j1]);
                    assert(nv.nodes[i2].adj[j2] == gv.nodes[i2].adj[j2]);
                }
            }
            assert(nv.nodes_ok());
            // counters
            lemma_count_active_push(oadj, c);
            lemma_total_active_upto_update(
                gv.nodes,
                from as int,
                nv.nodes[from as int],
                gv.n(),
            );
            lemma_total_len_upto_update(gv.nodes, from as int, nv.nodes[from as int], gv.n());
            assert(total_active(nv) == total_active(gv) + if active {
                1int
            } else {
                0int
            });
            assert(total_len(nv) == total_len(gv) + 1);
            // acyclicity
            if !active {
                let r = choose|r: Seq<int>| cycle::valid_rank(gv, r);
                cycle::lemma_rank_add_inactive(gv, from as int, c, r);
            }
            // the edge set still mirrors the live pairs
            assert forall|a: usize, b: usize|
                self.edges.spec_contains(a, b) <==> (a != self.input_nodes && nv.live_pair(
                    a,
                    b,
                )) by {
                if a == from {
                    if b == to {
                        if active {
                            assert(fadj[fadj.len() - 1].active && fadj[fadj.len() - 1].to == b);
                            assert(nv.live_pair(a, b));
                        } else {
                            assert forall|j: int|
                                0 <= j < fadj.len() implies !((#[trigger] fadj[j]).active
                                && fadj[j].to == b) by {
                                if j < oadj.len() {
                                    assert(fadj[j] == oadj[j]);
                                    assert(oadj[j].to != to);
                                } else {
                                    assert(fadj[j] == c);
                                }
                            }
                            assert(!nv.live_pair(a, b));
                            if old(self).edges.spec_contains(a, b) {
                                assert(gv.live_pair(a, b));
                            }
                        }
                    } else {
                        assert forall|j: int|
                            0 <= j < oadj.len() implies ((#[trigger] oadj[j]).active && oadj[j].to
                            == b) == (fadj[j].active && fadj[j].to == b) by {
                            assert(fadj[j] == oadj[j]);
                        }
                        assert(nv.live_pair(a, b) == gv.live_pair(a, b));
                    }
                } else {
                    assert((a as int) < n ==> nv.nodes[a as int] == gv.nodes[a as int]);
                    assert(nv.live_pair(a, b) == gv.live_pair(a, b));
                }
            }
        }
    }

    /// Whether the live non-bias edge set holds the pair.
    pub fn check_edge(&self, u_id: usize, v_id: usize) -> (r: bool)
        ensures
            r == self.edges.spec_contains(u_id, v_id),
    {
        self.edges.contains(u_id, v_id)
    }

    /// Whether any connection, active or not, runs `from -> to`.
    pub fn edge_exist(&self, from: usize, to: usize) -> (r: bool)
        requires
            from < self.nodes@.len(),
        ensures
            r == Node::spec_edge_exists(self@.nodes[from as int].adj, to),
    {
        let r = self.nodes[from].edge_exist(to);
        assert(self@.nodes[from as int].adj == self.nodes@[from as int].adj@);
        r
    }

    /// Whether an active connection runs `from -> to`.
    pub fn edge_active(&self, from: usize, to: usize) -> (r: bool)
        requires
            from < self.nodes@.len(),
        ensures
            r == self@.live_pair(from, to),
    {
        let node = &self.nodes[from];
        let ghost adj = self@.nodes[from as int].adj;
        assert(adj == node.adj@);
        let mut k: usize = 0;
        while k < node.adj.len()
            invariant
                0 <= k <= adj.len(),
                adj == node.adj@,
                (from as int) < self@.n(),
                adj == self@.nodes[from as int].adj,
                forall|j: int|
                    0 <= j < k ==> !((#[trigger] adj[j]).active && adj[j].to == to),
            decreases adj.len() - k,
        {
            if node.adj[k].active && node.adj[k].to == to {
                proof {
                    assert(adj[k as int].active && adj[k as int].to == to);
                }
                return true;
            }
            k += 1;
        }
        false
    }

    /// Disables the `from -> to` connection: its contribution disappears from
    /// evaluation, the pair leaves the live edge set, and the counter drops.
    /// A pair that is not live is left alone.
    pub fn disable_edge(&mut self, from: usize, to: usize)
        requires
            old(self).wf(),
            from < old(self).num_nodes,
        ensures
            final(self).wf(),
            final(self)@ == old(self)@.with_active(from as int, to, false),
            final(self).num_connections == old(self).num_connections - if old(self)@.live_pair(
                from,
                to,
            ) {
                1int
            } else {
                0int
            },
            final(self).num_nodes == old(self).num_nodes,
            final(self).hidden_nodes == old(self).hidden_nodes,
            final(self).input_nodes == old(self).input_nodes,
            final(self).output_nodes == old(self).output_nodes,
            final(self).act == old(self).act,
            forall|a: usize, b: usize|
                #![trigger final(self).edges.spec_contains(a, b)]
                final(self).edges.spec_contains(a, b) <==> (old(self).edges.spec_contains(a, b)
                    && !(a == from && b == to)),
    {
        let ghost gv = old(self)@;
        let ghost oadj = gv.nodes[from as int].adj;
        let live = self.edge_active(from, to);
        if !live {
            proof {
                lemma_adj_with_active_same(oadj, to, false);
                assert(gv.with_active(from as int, to, false).nodes =~= gv.nodes);
                assert(gv.with_active(from as int, to, false) == gv);
                assert forall|a: usize, b: usize|
                    self.edges.spec_contains(a, b) <==> (self.edges.spec_contains(a, b) && !(a
                        == from && b == to)) by {
                    if self.edges.spec_contains(a, b) && a == from && b == to {
                        assert(gv.live_pair(from, to));
                    }
                }
            }
            return ;
        }
        self.edges.remove(from, to);
        let node = &mut self.nodes[from];
        node.disable_edge(to);
        proof {
            let m = choose|j: int|
                0 <= j < oadj.len() && (#[trigger] oadj[j]).active && oadj[j].to == to;
            lemma_count_with_active_at(oadj, to, false, m);
            lemma_count_active_pos(oadj, m);
            lemma_total_active_lower(gv.nodes, gv.n(), from as int);
        }
        self.num_connections = self.num_connections - 1;
        proof {
            let nv = gv.with_active(from as int, to, false);
            assert(self@.nodes[from as int].adj =~= adj_with_active(oadj, to, false));
            assert(self@.nodes =~= nv.nodes);
            assert(self@ == nv);
            let n = nv.n();
            let fadj = nv.nodes[from as int].adj;
            // structural sanity is untouched: targets and innovation numbers
            // are identical, only flags changed
            assert forall|i: int, j: int|
                0 <= i < n && 0 <= j < nv.nodes[i].adj.len() implies {
                    let cc = #[trigger] nv.nodes[i].adj[j];
                    &&& (cc.to as int) < n
                    &&& cc.to != i
                    &&& -WEIGHT_CAP <= cc.weight <= WEIGHT_CAP
                    &&& cc.to == gv.nodes[i].adj[j].to
                    &&& cc.inno_number == gv.nodes[i].adj[j].inno_number
                    &&& (cc.active ==> gv.nodes[i].adj[j].active)
                } by {
                if i == from {
                    assert(gv.nodes[i].adj[j].to < n && gv.nodes[i].adj[j].to != i);
                } else {
                    assert(nv.nodes[i] == gv.nodes[i]);
                }
            }
            assert forall|i: int, j1: int, j2: int|
                0 <= i < n && 0 <= j1 < j2 < nv.nodes[i].adj.len() implies (#[trigger] nv.nodes[
                i].adj[j1]).to != (#[trigger] nv.nodes[i].adj[j2]).to by {
                assert(nv.nodes[i].adj[j1].to == gv.nodes[i].adj[j1].to);
                assert(nv.nodes[i].adj[j2].to == gv.nodes[i].adj[j2].to);
            }
            assert forall|i1: int, j1: int, i2: int, j2: int|
                0 <= i1 < n && 0 <= j1 < nv.nodes[i1].adj.len() && 0 <= i2 < n && 0 <= j2
                    < nv.nodes[i2].adj.len() && (i1 != i2 || j1 != j2) implies (#[trigger] nv.nodes[
                i1].adj[j1]).inno_number != (#[trigger] nv.nodes[i2].adj[j2]).inno_number by {
                assert(nv.nodes[i1].adj[j1].inno_number == gv.nodes[i1].adj[j1].inno_number);
                assert(nv.nodes[i2].adj[j2].inno_number == gv.nodes[i2].adj[j2].inno_number);
            }
            assert(nv.nodes_ok());
            lemma_total_active_upto_update(gv.nodes, from as int, nv.nodes[from as int], gv.n());
            lemma_total_len_upto_update(gv.nodes, from as int, nv.nodes[from as int], gv.n());
            let r = choose|r: Seq<int>| cycle::valid_rank(gv, r);
            cycle::lemma_rank_for_weaker(gv, nv, r);
            assert forall|a: usize, b: usize|
                self.edges.spec_contains(a, b) <==> (a != self.input_nodes && nv.live_pair(
                    a,
                    b,
                )) by {
                if a == from {
                    if b == to {
                        assert forall|j: int|
                            0 <= j < fadj.len() implies !((#[trigger] fadj[j]).active && fadj[j].to
                            == b) by {}
                        assert(!nv.live_pair(a, b));
                    } else {
                        if gv.live_pair(a, b) {
                            let j = choose|j: int|
                                0 <= j < oadj.len() && (#[trigger] oadj[j]).active && oadj[j].to
                                    == b;
                            assert(fadj[j].active && fadj[j].to == b);
                            assert(nv.live_pair(a, b));
                        }
                        if nv.live_pair(a, b) {
                            let j = choose|j: int|
                                0 <= j < fadj.len() && (#[trigger] fadj[j]).active && fadj[j].to
                                    == b;
                            assert(fadj[j].to == oadj[j].to);
                            assert(fadj[j] == oadj[j]);
                            assert(gv.live_pair(a, b));
                        }
                        assert(nv.live_pair(a, b) == gv.live_pair(a, b));
                    }
                } else {
                    assert((a as int) < n ==> nv.nodes[a as int] == gv.nodes[a as int]);
                    assert(nv.live_pair(a, b) == gv.live_pair(a, b));
                }
            }
        }
    }

    /// Enables the `from -> to` connection if one exists, putting the pair
    /// back into the live edge set (bias-origin pairs stay out: a bias edge is
    /// never a split candidate). The caller must have ruled out a cycle.
    pub fn enable_edge(&mut self, from: usize, to: usize)
        requires
            old(self).wf(),
            from < old(self).num_nodes,
            cycle::acyclic(
                old(self)@.with_conn(
                    from as int,
                    Connection { to, inno_number: 0, active: true, weight: 0 },
                ),
            ),
        ensures
            final(self).wf(),
            final(self)@ == old(self)@.with_active(from as int, to, true),
            final(self).num_connections == old(self).num_connections + if Node::spec_edge_exists(
                old(self)@.nodes[from as int].adj,
                to,
            ) && !old(self)@.live_pair(from, to) {
                1int
            } else {
                0int
            },
            final(self).num_nodes == old(self).num_nodes,
            final(self).hidden_nodes == old(self).hidden_nodes,
            final(self).input_nodes == old(self).input_nodes,
            final(self).output_nodes == old(self).output_nodes,
            final(self).act == old(self).act,
            forall|a: usize, b: usize|
                #![trigger final(self).edges.spec_contains(a, b)]
                final(self).edges.spec_contains(a, b) <==> (old(self).edges.spec_contains(a, b)
                    || (a == from && b == to && from != old(self).input_nodes
                    && Node::spec_edge_exists(old(self)@.nodes[from as int].adj, to))),
    {
        let ghost gv = old(self)@;
        let ghost oadj = gv.nodes[from as int].adj;
        let exists_e = self.edge_exist(from, to);
        if !exists_e {
            proof {
                lemma_adj_with_active_absent(oadj, to, true);
                assert(gv.with_active(from as int, to, true).nodes =~= gv.nodes);
                assert(gv.with_active(from as int, to, true) == gv);
                assert(!gv.live_pair(from, to));
            }
            return ;
        }
        let live = self.edge_active(from, to);
        if from != self.input_nodes {
            proof {
                if self.edges.spec_contains(from, to) {
                    assert(gv.live_pair(from, to));
                }
            }
            self.edges.insert(from, to);
        }
        let node = &mut self.nodes[from];
        node.enable_edge(to);
        if !live {
            proof {
                let m = choose|j: int| 0 <= j < oadj.len() && (#[trigger] oadj[j]).to == to;
                assert(!oadj[m].active);
                lemma_count_with_active_at(oadj, to, true, m);
                lemma_totals_bounds(gv.nodes, gv.n());
                let xnode = NodeV {
                    global: gv.nodes[from as int].global,
                    adj: adj_with_active(oadj, to, true),
                };
                lemma_total_active_upto_update(gv.nodes, from as int, xnode, gv.n());
                lemma_total_len_upto_update(gv.nodes, from as int, xnode, gv.n());
                let xnodes = gv.nodes.update(from as int, xnode);
                lemma_totals_bounds(xnodes, xnodes.len() as int);
                assert(total_active_upto(xnodes, xnodes.len() as int) == total_active(gv) + 1);
                assert(total_len_upto(xnodes, xnodes.len() as int) == total_len(gv));
                assert(self.num_connections < CONN_CAP);
            }
            self.num_connections = self.num_connections + 1;
        } else {
            proof {
                let m = choose|j: int|
                    0 <= j < oadj.len() && (#[trigger] oadj[j]).active && oadj[j].to == to;
                lemma_count_with_active_at(oadj, to, true, m);
            }
        }
        proof {
            let nv = gv.with_active(from as int, to, true);
            assert(self@.nodes[from as int].adj =~= adj_with_active(oadj, to, true));
            assert(self@.nodes =~= nv.nodes);
            assert(self@ == nv);
            let n = nv.n();
            let fadj = nv.nodes[from as int].adj;
            assert forall|i: int, j: int|
                0 <= i < n && 0 <= j < nv.nodes[i].adj.len() implies {
                    let cc = #[trigger] nv.nodes[i].adj[j];
                    &&& (cc.to as int) < n
                    &&& cc.to != i
                    &&& -WEIGHT_CAP <= cc.weight <= WEIGHT_CAP
                    &&& cc.to == gv.nodes[i].adj[j].to
                    &&& cc.inno_number == gv.nodes[i].adj[j].inno_number
                    &&& (cc.active ==> gv.nodes[i].adj[j].active || (i == from && cc.to == to))
                } by {
                if i == from {
                    assert(gv.nodes[i].adj[j].to < n && gv.nodes[i].adj[j].to != i);
                } else {
                    assert(nv.nodes[i] == gv.nodes[i]);
                }
            }
            assert forall|i: int, j1: int, j2: int|
                0 <= i < n && 0 <= j1 < j2 < nv.nodes[i].adj.len() implies (#[trigger] nv.nodes[
                i].adj[j1]).to != (#[trigger] nv.nodes[i].adj[j2]).to by {
                assert(nv.nodes[i].adj[j1].to == gv.nodes[i].adj[j1].to);
                assert(nv.nodes[i].adj[j2].to == gv.nodes[i].adj[j2].to);
            }
            assert forall|i1: int, j1: int, i2: int, j2: int|
                0 <= i1 < n && 0 <= j1 < nv.nodes[i1].adj.len() && 0 <= i2 < n && 0 <= j2
                    < nv.nodes[i2].adj.len() && (i1 != i2 || j1 != j2) implies (#[trigger] nv.nodes[
                i1].adj[j1]).inno_number != (#[trigger] nv.nodes[i2].adj[j2]).inno_number by {
                assert(nv.nodes[i1].adj[j1].inno_number == gv.nodes[i1].adj[j1].inno_number);
                assert(nv.nodes[i2].adj[j2].inno_number == gv.nodes[i2].adj[j2].inno_number);
            }
            assert(nv.nodes_ok());
            lemma_total_active_upto_update(gv.nodes, from as int, nv.nodes[from as int], gv.n());
            lemma_total_len_upto_update(gv.nodes, from as int, nv.nodes[from as int], gv.n());
            let r = choose|r: Seq<int>|
                cycle::valid_rank(
                    gv.with_conn(
                        from as int,
                        Connection { to, inno_number: 0, active: true, weight: 0 },
                    ),
                    r,
                );
            cycle::lemma_rank_enable(gv, nv, from as int, to, r);
            let m = choose|j: int| 0 <= j < oadj.len() && (#[trigger] oadj[j]).to == to;
            assert(fadj[m].active && fadj[m].to == to);
            assert(nv.live_pair(from, to));
            assert forall|a: usize, b: usize|
                self.edges.spec_contains(a, b) <==> (a != self.input_nodes && nv.live_pair(
                    a,
                    b,
                )) by {
                if a == from {
                    if b != to {
                        if gv.live_pair(a, b) {
                            let j = choose|j: int|
                                0 <= j < oadj.len() && (#[trigger] oadj[j]).active && oadj[j].to
                                    == b;
                            assert(fadj[j].active && fadj[j].to == b);
                            assert(nv.live_pair(a, b));
                        }
                        if nv.live_pair(a, b) {
                            let j = choose|j: int|
                                0 <= j < fadj.len() && (#[trigger] fadj[j]).active && fadj[j].to
                                    == b;
                            assert(fadj[j].to == oadj[j].to);
                            assert(fadj[j] == oadj[j]);
                            assert(gv.live_pair(a, b));
                        }
                        assert(nv.live_pair(a, b) == gv.live_pair(a, b));
                    }
                } else {
                    assert((a as int) < n ==> nv.nodes[a as int] == gv.nodes[a as int]);
                    assert(nv.live_pair(a, b) == gv.live_pair(a, b));
                }
            }
        }
    }

    /// Pops the most recently added connection of `from`, undoing a
    /// speculative insertion; the pair leaves the live edge set.
    pub fn rm_last(&mut self, from: usize, to: usize)
        requires
            old(self).wf(),
            from < old(self).num_nodes,
            old(self)@.nodes[from as int].adj.len() > 0,
            old(self)@.nodes[from as int].adj.last().to == to,
        ensures
            final(self).wf(),
            final(self)@ == old(self)@.without_last_conn(from as int),
            final(self).num_connections == old(self).num_connections - if old(self)@.nodes[from as int].adj.last().active {
                1int
            } else {
                0int
            },
            final(self).num_nodes == old(self).num_nodes,
            final(self).hidden_nodes == old(self).hidden_nodes,
            final(self).input_nodes == old(self).input_nodes,
            final(self).output_nodes == old(self).output_nodes,
            final(self).act == old(self).act,
            forall|a: usize, b: usize|
                #![trigger final(self).edges.spec_contains(a, b)]
                final(self).edges.spec_contains(a, b) <==> (old(self).edges.spec_contains(a, b)
                    && !(a == from && b == to)),
    {
        let ghost gv = old(self)@;
        let ghost oadj = gv.nodes[from as int].adj;
        let node_ref = &self.nodes[from];
        let last_active = node_ref.adj[node_ref.adj.len() - 1].active;
        self.edges.remove(from, to);
        let node = &mut self.nodes[from];
        node.del_back();
        if last_active {
            proof {
                lemma_count_active_pos(oadj, oadj.len() - 1);
                lemma_total_active_lower(gv.nodes, gv.n(), from as int);
                assert(count_active(oadj) >= 1);
            }
            self.num_connections = self.num_connections - 1;
        }
        proof {
            let nv = gv.without_last_conn(from as int);
            assert(self@.nodes =~= nv.nodes);
            assert(self@ == nv);
            let n = nv.n();
            let fadj = nv.nodes[from as int].adj;
            assert(fadj == oadj.drop_last());
            assert forall|i: int, j: int|
                0 <= i < n && 0 <= j < nv.nodes[i].adj.len() implies #[trigger] nv.nodes[i].adj[j]
                == gv.nodes[i].adj[j] by {
                if i != from {
                    assert(nv.nodes[i] == gv.nodes[i]);
                }
            }
            assert(nv.nodes_ok());
            lemma_total_active_upto_update(gv.nodes, from as int, nv.nodes[from as int], gv.n());
            lemma_total_len_upto_update(gv.nodes, from as int, nv.nodes[from as int], gv.n());
            assert(count_active(oadj) == count_active(fadj) + if oadj.last().active {
                1int
            } else {
                0int
            });
            let r = choose|r: Seq<int>| cycle::valid_rank(gv, r);
            assert forall|i: int, j: int|
                0 <= i < nv.nodes.len() && 0 <= j < nv.nodes[i].adj.len() && (#[trigger] nv.nodes[
                i].adj[j]).active implies r[i] < r[nv.nodes[i].adj[j].to as int] by {
                assert(nv.nodes[i].adj[j] == gv.nodes[i].adj[j]);
            }
            assert(cycle::valid_rank(nv, r));
            assert forall|a: usize, b: usize|
                self.edges.spec_contains(a, b) <==> (a != self.input_nodes && nv.live_pair(
                    a,
                    b,
                )) by {
                if a == from {
                    if b == to {
                        assert forall|j: int|
                            0 <= j < fadj.len() implies !((#[trigger] fadj[j]).active && fadj[j].to
                            == b) by {
                            assert(fadj[j] == oadj[j]);
                            assert(oadj[j].to != oadj[oadj.len() - 1].to || j == oadj.len() - 1);
                        }
                        assert(!nv.live_pair(a, b));
                    } else {
                        assert forall|j: int|
                            0 <= j < oadj.len() && ((#[trigger] oadj[j]).active && oadj[j].to
                                == b) implies (nv.live_pair(a, b)) by {
                            assert(j != oadj.len() - 1);
                            assert(fadj[j] == oadj[j]);
                        }
                        assert forall|j: int|
                            0 <= j < fadj.len() && ((#[trigger] fadj[j]).active && fadj[j].to
                                == b) implies (gv.live_pair(a, b)) by {
                            assert(fadj[j] == oadj[j]);
                        }
                        assert(nv.live_pair(a, b) == gv.live_pair(a, b));
                    }
                } else {
                    assert((a as int) < n ==> nv.nodes[a as int] == gv.nodes[a as int]);
                    assert(nv.live_pair(a, b) == gv.live_pair(a, b));
                }
            }
        }
    }

    /// The local index of the node carrying global id `x`, if any.
    pub fn find_node(&self, x: usize) -> (r: Option<usize>)
        requires
            self.wf_graph(),
        ensures
            match r {
                Option::None => self@.fresh_global(x),
                Option::Some(l) => (l as int) < self@.n() && self@.nodes[l as int].global == x,
            },
    {
        let n = self.nodes.len();
        let mut i: usize = 0;
        while i < n
            invariant
                self.wf_graph(),
                n == self@.nodes.len(),
                0 <= i <= n,
                forall|i2: int| 0 <= i2 < i ==> (#[trigger] self@.nodes[i2]).global != x,
            decreases n - i,
        {
            if self.nodes[i].global_id == x {
                proof {
                    assert(self@.nodes[i as int].global == x);
                }
                return Some(i);
            }
            proof {
                assert(self@.nodes[i as int].global == self.nodes@[i as int].global_id);
            }
            i += 1;
        }
        None
    }

    /// Whether no connection of the genome carries innovation number `x`.
    pub fn inno_fresh(&self, x: usize) -> (r: bool)
        requires
            self.wf_graph(),
        ensures
            r == self@.fresh_inno(x),
    {
        let n = self.nodes.len();
        let mut i: usize = 0;
        while i < n
            invariant
                self.wf_graph(),
                n == self@.nodes.len(),
                0 <= i <= n,
                forall|i2: int, j: int|
                    0 <= i2 < i && 0 <= j < self@.nodes[i2].adj.len() ==> (#[trigger] self@.nodes[
                        i2].adj[j]).inno_number != x,
            decreases n - i,
        {
            let node_ref = &self.nodes[i];
            let ghost row = self@.nodes[i as int].adj;
            proof {
                assert(row == node_ref.adj@);
            }
            let m = node_ref.adj.len();
            let mut j: usize = 0;
            while j < m
                invariant
                    0 <= i < n,
                    n == self@.nodes.len(),
                    0 <= j <= m,
                    m == row.len(),
                    row == node_ref.adj@,
                    row == self@.nodes[i as int].adj,
                    forall|j2: int| 0 <= j2 < j ==> (#[trigger] row[j2]).inno_number != x,
                decreases m - j,
            {
                if node_ref.adj[j].inno_number == x {
                    proof {
                        assert(self@.nodes[i as int].adj[j as int].inno_number == x);
                    }
                    return false;
                }
                j += 1;
            }
            proof {
                assert(self@.nodes[i as int].adj == row);
            }
            i += 1;
        }
        true
    }

    /// Number of connections, active or not.
    pub fn connection_total(&self) -> (r: usize)
        requires
            self.wf_graph(),
        ensures
            r == total_len(self@),
    {
        let n = self.nodes.len();
        let mut total: usize = 0;
        let mut i: usize = 0;
        proof {
            lemma_total_len_mono(self@.nodes, 0, self@.n());
        }
        while i < n
            invariant
                self.wf_graph(),
                n == self@.nodes.len(),
                0 <= i <= n,
                total == total_len_upto(self@.nodes, i as int),
                total_len(self@) <= CONN_CAP,
            decreases n - i,
        {
            proof {
                lemma_total_len_mono(self@.nodes, i as int + 1, self@.n());
                lemma_totals_bounds(self@.nodes, i as int);
                assert(self@.nodes[i as int].adj == self.nodes@[i as int].adj@);
            }
            total = total + self.nodes[i].adj.len();
            i += 1;
        }
        total
    }

    /// Disables one live edge drawn uniformly at random; reports whether any
    /// edge was available.
    pub fn random_disable(&mut self) -> (r: bool)
        requires
            old(self).wf(),
        ensures
            final(self).wf(),
            r == (old(self).edges.items@.len() > 0),
            !r ==> final(self)@ == old(self)@ && final(self).num_connections == old(self).num_connections && final(self).edges == old(self).edges && final(self).hidden_nodes == old(self).hidden_nodes,
            r ==> exists|a: usize, b: usize|
                {
                    &&& #[trigger] old(self).edges.spec_contains(a, b)
                    &&& final(self)@ == old(self)@.with_active(a as int, b, false)
                    &&& final(self).num_connections == old(self).num_connections - 1
                },
            final(self).input_nodes == old(self).input_nodes,
            final(self).output_nodes == old(self).output_nodes,
            final(self).num_nodes == old(self).num_nodes,
            final(self).act == old(self).act,
    {
        let len = self.edges.len();
        if len == 0 {
            return false;
        }
        let idx = crate::rng::rand_usize(0, len - 1);
        let e = self.edges.nth(idx);
        proof {
            assert(old(self).edges.items@[idx as int] == e);
            assert(old(self).edges.spec_contains(e.0, e.1));
            assert(old(self)@.live_pair(e.0, e.1));
        }
        self.disable_edge(e.0, e.1);
        true
    }

    /// Fully connects every input and the bias node to every output with
    /// random weights, assigning the deterministic innovation number
    /// `source * outputs + output_index` to each new connection. Expects the
    /// freshly built, edge-less genome.
    pub fn connect_ends(&mut self)
        requires
            old(self).wf(),
            old(self).num_nodes == old(self).input_nodes + old(self).output_nodes + 1,
            forall|i: int|
                0 <= i < old(self)@.n() ==> (#[trigger] old(self)@.nodes[i]).adj.len() == 0,
            (old(self).input_nodes + 1) * old(self).output_nodes <= CONN_CAP,
        ensures
            final(self).wf(),
            final(self).input_nodes == old(self).input_nodes,
            final(self).output_nodes == old(self).output_nodes,
            final(self).hidden_nodes == old(self).hidden_nodes,
            final(self).num_nodes == old(self).num_nodes,
            final(self).act == old(self).act,
            final(self).num_connections == (old(self).input_nodes + 1) * old(self).output_nodes,
            final(self)@.nodes.len() == old(self)@.nodes.len(),
            forall|i: int|
                0 <= i < final(self)@.n() ==> (#[trigger] final(self)@.nodes[i]).global == old(self)@.nodes[i].global,
            forall|i: int|
                0 <= i <= old(self).input_nodes ==> (#[trigger] final(self)@.nodes[i]).adj.len()
                    == old(self).output_nodes,
            forall|i: int, j: int|
                0 <= i <= old(self).input_nodes && 0 <= j < old(self).output_nodes ==> {
                    let c = #[trigger] final(self)@.nodes[i].adj[j];
                    &&& c.to == old(self).input_nodes + 1 + j
                    &&& c.inno_number == i * old(self).output_nodes + j
                    &&& c.active
                    &&& -MAX_WEIGHT <= c.weight <= MAX_WEIGHT
                },
            forall|i: int|
                old(self).input_nodes < i < final(self)@.n() ==> (#[trigger] final(self)@.nodes[i]).adj.len() == 0,
    {
        let ghost gv = old(self)@;
        proof {
            lemma_total_upto_empty(gv.nodes, gv.n());
        }
        let inputs = self.input_nodes;
        let outputs = self.output_nodes;
        let mut i: usize = 0;
        while i < inputs + 1
            invariant
                self.wf(),
                gv == old(self)@,
                inputs == old(self).input_nodes,
                outputs == old(self).output_nodes,
                0 <= i <= inputs + 1,
                self.input_nodes == old(self).input_nodes,
                self.output_nodes == old(self).output_nodes,
                self.hidden_nodes == old(self).hidden_nodes,
                self.num_nodes == old(self).num_nodes,
                self.act == old(self).act,
                self.num_nodes == inputs + outputs + 1,
                (inputs + 1) * outputs <= CONN_CAP,
                self@.nodes.len() == gv.nodes.len(),
                self.num_connections == i * outputs,
                forall|i2: int|
                    0 <= i2 < self@.n() ==> (#[trigger] self@.nodes[i2]).global == gv.nodes[
                        i2].global,
                forall|i2: int|
                    0 <= i2 < i ==> (#[trigger] self@.nodes[i2]).adj.len() == outputs,
                forall|i2: int|
                    i <= i2 < self@.n() ==> (#[trigger] self@.nodes[i2]).adj.len() == 0,
                forall|i2: int, j: int|
                    0 <= i2 < i && 0 <= j < outputs ==> {
                        let c = #[trigger] self@.nodes[i2].adj[j];
                        &&& c.to == inputs + 1 + j
                        &&& c.inno_number == i2 * outputs + j
                        &&& c.active
                        &&& -MAX_WEIGHT <= c.weight <= MAX_WEIGHT
                    },
            decreases inputs + 1 - i,
        {
            let mut j: usize = 0;
            while j < outputs
                invariant
                    self.wf(),
                    gv == old(self)@,
                    inputs == old(self).input_nodes,
                    outputs == old(self).output_nodes,
                    0 <= i <= inputs,
                    0 <= j <= outputs,
                    self.input_nodes == old(self).input_nodes,
                    self.output_nodes == old(self).output_nodes,
                    self.hidden_nodes == old(self).hidden_nodes,
                    self.num_nodes == old(self).num_nodes,
                    self.act == old(self).act,
                    self.num_nodes == inputs + outputs + 1,
                    (inputs + 1) * outputs <= CONN_CAP,
                    self@.nodes.len() == gv.nodes.len(),
                    self.num_connections == i * outputs + j,
                    forall|i2: int|
                        0 <= i2 < self@.n() ==> (#[trigger] self@.nodes[i2]).global == gv.nodes[
                            i2].global,
                    forall|i2: int|
                        0 <= i2 < i ==> (#[trigger] self@.nodes[i2]).adj.len() == outputs,
                    self@.nodes[i as int].adj.len() == j,
                    forall|i2: int|
                        i < i2 < self@.n() ==> (#[trigger] self@.nodes[i2]).adj.len() == 0,
                    forall|i2: int, j2: int|
                        0 <= i2 < i && 0 <= j2 < outputs ==> {
                            let c = #[trigger] self@.nodes[i2].adj[j2];
                            &&& c.to == inputs + 1 + j2
                            &&& c.inno_number == i2 * outputs + j2
                            &&& c.active
                            &&& -MAX_WEIGHT <= c.weight <= MAX_WEIGHT
                        },
                    forall|j2: int|
                        0 <= j2 < j ==> {
                            let c = #[trigger] self@.nodes[i as int].adj[j2];
                            &&& c.to == inputs + 1 + j2
                            &&& c.inno_number == i * outputs + j2
                            &&& c.active
                            &&& -MAX_WEIGHT <= c.weight <= MAX_WEIGHT
                        },
                decreases outputs - j,
            {
                let ghost pre = self@;
                let w = crate::rng::rand_i64(-MAX_WEIGHT, MAX_WEIGHT);
                proof {
                    assert((i * outputs + j) + 1 <= (inputs + 1) * outputs) by (nonlinear_arith)
                        requires
                            0 <= i <= inputs,
                            0 <= j < outputs,
                    ;
                    // every innovation number already present is smaller
                    assert forall|i2: int, j2: int|
                        0 <= i2 < pre.n() && 0 <= j2 < pre.nodes[i2].adj.len() implies (
                    #[trigger] pre.nodes[i2].adj[j2]).inno_number != i * outputs + j by {
                        if i2 < i as int {
                            assert(pre.nodes[i2].adj[j2].inno_number == i2 * outputs + j2);
                            assert(i2 * outputs + j2 < i * outputs + j) by (nonlinear_arith)
                                requires
                                    0 <= i2 < i as int,
                                    0 <= j2 < outputs,
                                    0 <= j,
                            ;
                        } else if i2 == i as int {
                            assert(pre.nodes[i2].adj[j2].inno_number == i * outputs + j2);
                        }
                    }
                    assert(pre.fresh_inno((i * outputs + j) as usize));
                    // no duplicate target within the row
                    assert forall|j2: int|
                        0 <= j2 < pre.nodes[i as int].adj.len() implies (#[trigger] pre.nodes[
                    i as int].adj[j2]).to != (inputs + 1 + j) as usize by {}
                    assert(!Node::spec_edge_exists(
                        pre.nodes[i as int].adj,
                        (inputs + 1 + j) as usize,
                    ));
                    // connection total so far
                    assert forall|i2: int, j2: int|
                        0 <= i2 < pre.nodes.len() && 0 <= j2 < pre.nodes[i2].adj.len() implies (
                    #[trigger] pre.nodes[i2].adj[j2]).active by {}
                    lemma_total_len_eq_active(pre.nodes, pre.n());
                    assert(total_active(pre) == i * outputs + j);
                    assert(total_len(pre) < CONN_CAP);
                    // the layered rank: sources low, everything else high
                    let r01 = Seq::new(pre.nodes.len(), |u: int| if u <= inputs { 0int } else { 1int });
                    let probe = pre.with_conn(
                        i as int,
                        Connection {
                            to: (inputs + 1 + j) as usize,
                            inno_number: (i * outputs + j) as usize,
                            active: true,
                            weight: w,
                        },
                    );
                    assert forall|a: int, b: int|
                        0 <= a < probe.nodes.len() && 0 <= b < probe.nodes[a].adj.len() && (
                    #[trigger] probe.nodes[a].adj[b]).active implies r01[a] < r01[probe.nodes[
                    a].adj[b].to as int] by {
                        if a == i as int && b == pre.nodes[a].adj.len() {
                            assert(probe.nodes[a].adj[b].to == inputs + 1 + j);
                        } else {
                            if a == i as int {
                                assert(probe.nodes[a].adj[b] == pre.nodes[a].adj[b]);
                            } else {
                                assert(probe.nodes[a] == pre.nodes[a]);
                            }
                            if a < i as int {
                                assert(pre.nodes[a].adj[b].to == inputs + 1 + b);
                            } else if a == i as int {
                                assert(pre.nodes[a].adj[b].to == inputs + 1 + b);
                            } else {
                                assert(pre.nodes[a].adj.len() == 0);
                            }
                        }
                    }
                    assert(cycle::valid_rank(probe, r01));
                }
                self.add_edge(i, inputs + 1 + j, i * outputs + j, w, true);
                proof {
                    assert forall|j2: int|
                        0 <= j2 < j + 1 implies {
                        let c = #[trigger] self@.nodes[i as int].adj[j2];
                        &&& c.to == inputs + 1 + j2
                        &&& c.inno_number == i * outputs + j2
                        &&& c.active
                        &&& -MAX_WEIGHT <= c.weight <= MAX_WEIGHT
                    } by {
                        if j2 < j as int {
                            assert(self@.nodes[i as int].adj[j2] == pre.nodes[i as int].adj[j2]);
                        }
                    }
                    assert forall|i2: int, j2: int|
                        0 <= i2 < i && 0 <= j2 < outputs implies {
                        let c = #[trigger] self@.nodes[i2].adj[j2];
                        &&& c.to == inputs + 1 + j2
                        &&& c.inno_number == i2 * outputs + j2
                        &&& c.active
                        &&& -MAX_WEIGHT <= c.weight <= MAX_WEIGHT
                    } by {
                        assert(self@.nodes[i2] == pre.nodes[i2]);
                        assert(self@.nodes[i2].adj[j2] == pre.nodes[i2].adj[j2]);
                    }
                }
                j += 1;
            }
            proof {
                assert((i + 1) * outputs == i * outputs + outputs) by (nonlinear_arith);
            }
            i += 1;
        }
    }

    /// Nudges every connection weight by a random step of at most one unit,
    /// clamped to the weight range.
    pub fn permute_weights(&mut self)
        requires
            old(self).wf(),
        ensures
            final(self).wf(),
            final(self).input_nodes == old(self).input_nodes,
            final(self).output_nodes == old(self).output_nodes,
            final(self).hidden_nodes == old(self).hidden_nodes,
            final(self).num_nodes == old(self).num_nodes,
            final(self).num_connections == old(self).num_connections,
            final(self).act == old(self).act,
            final(self).edges == old(self).edges,
            reweighted(old(self)@, final(self)@, final(self)@.n(), 0),
            forall|i: int, j: int|
                #![trigger final(self)@.nodes[i].adj[j]]
                0 <= i < old(self)@.nodes.len() && 0 <= j < old(self)@.nodes[i].adj.len()
                    ==> clamped_step(
                    old(self)@.nodes[i].adj[j].weight as int,
                    final(self)@.nodes[i].adj[j].weight as int,
                ),
    {
        let ghost gv = old(self)@;
        let n = self.nodes.len();
        let mut i: usize = 0;
        while i < n
            invariant
                old(self).wf(),
                gv == old(self)@,
                n == gv.nodes.len(),
                0 <= i <= n,
                self.input_nodes == old(self).input_nodes,
                self.output_nodes == old(self).output_nodes,
                self.hidden_nodes == old(self).hidden_nodes,
                self.num_nodes == old(self).num_nodes,
                self.num_connections == old(self).num_connections,
                self.act == old(self).act,
                self.edges == old(self).edges,
                self.nodes@.len() == n,
                forall|i2: int|
                    0 <= i2 < n ==> (#[trigger] self.nodes@[i2]).local_id == old(self).nodes@[i2].local_id && self.nodes@[i2].act == old(self).nodes@[i2].act,
                reweighted(gv, self@, i as int, 0),
                forall|i2: int, j: int|
                    #![trigger self@.nodes[i2].adj[j]]
                    0 <= i2 < n && 0 <= j < gv.nodes[i2].adj.len() && (i2 < i as int) ==> clamped_step(
                        gv.nodes[i2].adj[j].weight as int,
                        self@.nodes[i2].adj[j].weight as int,
                    ),
            decreases n - i,
        {
            proof {
                assert(self@.nodes[i as int].adj.len() == gv.nodes[i as int].adj.len());
                assert(self@.nodes[i as int].adj == self.nodes@[i as int].adj@);
            }
            let m = self.nodes[i].adj.len();
            let mut k: usize = 0;
            while k < m
                invariant
                    old(self).wf(),
                    gv == old(self)@,
                    n == gv.nodes.len(),
                    0 <= i < n,
                    0 <= k <= m,
                    m == gv.nodes[i as int].adj.len(),
                    self.input_nodes == old(self).input_nodes,
                    self.output_nodes == old(self).output_nodes,
                    self.hidden_nodes == old(self).hidden_nodes,
                    self.num_nodes == old(self).num_nodes,
                    self.num_connections == old(self).num_connections,
                    self.act == old(self).act,
                    self.edges == old(self).edges,
                    self.nodes@.len() == n,
                    forall|i2: int|
                        0 <= i2 < n ==> (#[trigger] self.nodes@[i2]).local_id == old(self).nodes@[i2].local_id && self.nodes@[i2].act == old(self).nodes@[i2].act,
                    reweighted(gv, self@, i as int, k as int),
                    forall|i2: int, j: int|
                        #![trigger self@.nodes[i2].adj[j]]
                        0 <= i2 < n && 0 <= j < gv.nodes[i2].adj.len() && (i2 < i as int || (i2
                            == i as int && j < k as int)) ==> clamped_step(
                            gv.nodes[i2].adj[j].weight as int,
                            self@.nodes[i2].adj[j].weight as int,
                        ),
                decreases m - k,
            {
                let ghost pre = self@;
                proof {
                    assert(self@.nodes[i as int].adj.len() == gv.nodes[i as int].adj.len());
                    assert(self@.nodes[i as int].adj == self.nodes@[i as int].adj@);
                }
                let node_ref = &self.nodes[i];
                let c = node_ref.adj[k];
                proof {
                    assert(c == self@.nodes[i as int].adj[k as int]);
                    assert(c.weight == gv.nodes[i as int].adj[k as int].weight);
                    assert(-WEIGHT_CAP <= c.weight <= WEIGHT_CAP);
                }
                let d = crate::rng::rand_i64(-1, 1);
                let mut w = c.weight + d;
                if w > MAX_WEIGHT {
                    w = MAX_WEIGHT;
                }
                if w < -MAX_WEIGHT {
                    w = -MAX_WEIGHT;
                }
                let nc = Connection {
                    to: c.to,
                    inno_number: c.inno_number,
                    active: c.active,
                    weight: w,
                };
                let node = &mut self.nodes[i];
                node.adj.set(k, nc);
                proof {
                    assert(self@.nodes[i as int].adj =~= pre.nodes[i as int].adj.update(
                        k as int,
                        nc,
                    ));
                    assert forall|i2: int|
                        0 <= i2 < n implies (#[trigger] self@.nodes[i2]).global == gv.nodes[
                    i2].global && self@.nodes[i2].adj.len() == gv.nodes[i2].adj.len() by {
                        if i2 != i {
                            assert(self@.nodes[i2] == pre.nodes[i2]);
                        } else {
                            assert(self@.nodes[i2].global == self.nodes@[i2].global_id);
                        }
                        assert(pre.nodes[i2].global == gv.nodes[i2].global);
                        assert(pre.nodes[i2].adj.len() == gv.nodes[i2].adj.len());
                    }
                    assert forall|i2: int, j: int|
                        0 <= i2 < n && 0 <= j < gv.nodes[i2].adj.len() implies {
                        let c2 = #[trigger] self@.nodes[i2].adj[j];
                        let c1 = gv.nodes[i2].adj[j];
                        &&& c2.to == c1.to
                        &&& c2.inno_number == c1.inno_number
                        &&& c2.active == c1.active
                        &&& if i2 < i as int || (i2 == i as int && j < k + 1) {
                            -MAX_WEIGHT <= c2.weight <= MAX_WEIGHT
                        } else {
                            c2.weight == c1.weight
                        }
                    } by {
                        assert(pre.nodes[i2].adj.len() == gv.nodes[i2].adj.len());
                        if i2 == i as int && j == k as int {
                            assert(self@.nodes[i2].adj[j] == nc);
                        } else if i2 == i as int {
                            assert(self@.nodes[i2].adj[j] == pre.nodes[i2].adj[j]);
                        } else {
                            assert(self@.nodes[i2] == pre.nodes[i2]);
                        }
                    }
                    assert(reweighted(gv, self@, i as int, (k + 1) as int));
                    assert(clamped_step(
                        gv.nodes[i as int].adj[k as int].weight as int,
                        self@.nodes[i as int].adj[k as int].weight as int,
                    )) by {
                        assert(self@.nodes[i as int].adj[k as int] == nc);
                        assert(nc.weight == w);
                        assert(-1 <= d <= 1 && w as int == clamp_weight(c.weight + d));
                    }
                    assert forall|i2: int, j: int|
                        #![trigger self@.nodes[i2].adj[j]]
                        0 <= i2 < n && 0 <= j < gv.nodes[i2].adj.len() && (i2 < i as int || (i2
                            == i as int && j < k as int + 1)) implies clamped_step(
                        gv.nodes[i2].adj[j].weight as int,
                        self@.nodes[i2].adj[j].weight as int,
                    ) by {
                        if !(i2 == i as int && j == k as int) {
                            assert(self@.nodes[i2].adj[j] == pre.nodes[i2].adj[j]);
                            assert(clamped_step(
                                gv.nodes[i2].adj[j].weight as int,
                                pre.nodes[i2].adj[j].weight as int,
                            ));
                        }
                    }
                }
                k += 1;
            }
            i += 1;
        }
        proof {
            lemma_wf_same_shape(*old(self), *self);
        }
    }

    /// Replaces every connection weight by a fresh random one in the weight
    /// range.
    pub fn new_weights(&mut self)
        requires
            old(self).wf(),
        ensures
            final(self).wf(),
            final(self).input_nodes == old(self).input_nodes,
            final(self).output_nodes == old(self).output_nodes,
            final(self).hidden_nodes == old(self).hidden_nodes,
            final(self).num_nodes == old(self).num_nodes,
            final(self).num_connections == old(self).num_connections,
            final(self).act == old(self).act,
            final(self).edges == old(self).edges,
            reweighted(old(self)@, final(self)@, final(self)@.n(), 0),
    {
        let ghost gv = old(self)@;
        let n = self.nodes.len();
        let mut i: usize = 0;
        while i < n
            invariant
                old(self).wf(),
                gv == old(self)@,
                n == gv.nodes.len(),
                0 <= i <= n,
                self.input_nodes == old(self).input_nodes,
                self.output_nodes == old(self).output_nodes,
                self.hidden_nodes == old(self).hidden_nodes,
                self.num_nodes == old(self).num_nodes,
                self.num_connections == old(self).num_connections,
                self.act == old(self).act,
                self.edges == old(self).edges,
                self.nodes@.len() == n,
                forall|i2: int|
                    0 <= i2 < n ==> (#[trigger] self.nodes@[i2]).local_id == old(self).nodes@[i2].local_id && self.nodes@[i2].act == old(self).nodes@[i2].act,
                reweighted(gv, self@, i as int, 0),
            decreases n - i,
        {
            proof {
                assert(self@.nodes[i as int].adj.len() == gv.nodes[i as int].adj.len());
                assert(self@.nodes[i as int].adj == self.nodes@[i as int].adj@);
            }
            let m = self.nodes[i].adj.len();
            let mut k: usize = 0;
            while k < m
                invariant
                    old(self).wf(),
                    gv == old(self)@,
                    n == gv.nodes.len(),
                    0 <= i < n,
                    0 <= k <= m,
                    m == gv.nodes[i as int].adj.len(),
                    self.input_nodes == old(self).input_nodes,
                    self.output_nodes == old(self).output_nodes,
                    self.hidden_nodes == old(self).hidden_nodes,
                    self.num_nodes == old(self).num_nodes,
                    self.num_connections == old(self).num_connections,
                    self.act == old(self).act,
                    self.edges == old(self).edges,
                    self.nodes@.len() == n,
                    forall|i2: int|
                        0 <= i2 < n ==> (#[trigger] self.nodes@[i2]).local_id == old(self).nodes@[i2].local_id && self.nodes@[i2].act == old(self).nodes@[i2].act,
                    reweighted(gv, self@, i as int, k as int),
                decreases m - k,
            {
                let ghost pre = self@;
                proof {
                    assert(self@.nodes[i as int].adj.len() == gv.nodes[i as int].adj.len());
                    assert(self@.nodes[i as int].adj == self.nodes@[i as int].adj@);
                }
                let node_ref = &self.nodes[i];
                let c = node_ref.adj[k];
                let w = crate::rng::rand_i64(-MAX_WEIGHT, MAX_WEIGHT);
                let nc = Connection {
                    to: c.to,
                    inno_number: c.inno_number,
                    active: c.active,
                    weight: w,
                };
                let node = &mut self.nodes[i];
                node.adj.set(k, nc);
                proof {
                    assert(c == pre.nodes[i as int].adj[k as int]);
                    assert(self@.nodes[i as int].adj =~= pre.nodes[i as int].adj.update(
                        k as int,
                        nc,
                    ));
                    assert forall|i2: int|
                        0 <= i2 < n implies (#[trigger] self@.nodes[i2]).global == gv.nodes[
                    i2].global && self@.nodes[i2].adj.len() == gv.nodes[i2].adj.len() by {
                        if i2 != i {
                            assert(self@.nodes[i2] == pre.nodes[i2]);
                        } else {
                            assert(self@.nodes[i2].global == self.nodes@[i2].global_id);
                        }
                        assert(pre.nodes[i2].global == gv.nodes[i2].global);
                        assert(pre.nodes[i2].adj.len() == gv.nodes[i2].adj.len());
                    }
                    assert forall|i2: int, j: int|
                        0 <= i2 < n && 0 <= j < gv.nodes[i2].adj.len() implies {
                        let c2 = #[trigger] self@.nodes[i2].adj[j];
                        let c1 = gv.nodes[i2].adj[j];
                        &&& c2.to == c1.to
                        &&& c2.inno_number == c1.inno_number
                        &&& c2.active == c1.active
                        &&& if i2 < i as int || (i2 == i as int && j < k + 1) {
                            -MAX_WEIGHT <= c2.weight <= MAX_WEIGHT
                        } else {
                            c2.weight == c1.weight
                        }
                    } by {
                        assert(pre.nodes[i2].adj.len() == gv.nodes[i2].adj.len());
                        if i2 == i as int && j == k as int {
                            assert(self@.nodes[i2].adj[j] == nc);
                        } else if i2 == i as int {
                            assert(self@.nodes[i2].adj[j] == pre.nodes[i2].adj[j]);
                        } else {
                            assert(self@.nodes[i2] == pre.nodes[i2]);
                        }
                    }
                    assert(reweighted(gv, self@, i as int, (k + 1) as int));
                }
                k += 1;
            }
            i += 1;
        }
        proof {
            lemma_wf_same_shape(*old(self), *self);
        }
    }

    /// Whether `(u, v)` can come out of the candidate draw: the source is an
    /// input, the bias or a hidden node, the target an output or a hidden
    /// node.
    pub open spec fn candidate_pair(self, u: usize, v: usize) -> bool {
        &&& (u <= self.input_nodes || (self.input_nodes + self.output_nodes < u && (u as int)
            < self.num_nodes))
        &&& self.input_nodes < v
        &&& (v as int) < self.num_nodes
    }

    /// Every drawable pair is admissible: a self-loop-free pair outside the
    /// live edge set whose addition keeps the graph acyclic.
    pub open spec fn all_candidates_open(self) -> bool {
        forall|u: usize, v: usize|
            #[trigger] self.candidate_pair(u, v) ==> u != v && !self.edges.spec_contains(u, v)
                && cycle::acyclic(self@.with_conn(u as int, cycle::probe_conn(v)))
    }

    /// Looks for a new structural edge: up to one hundred attempts draw an
    /// input-bias-or-hidden source and an output-or-hidden target, reject
    /// self-loops, pairs already in the live edge set and pairs that would
    /// close a cycle, and hand back the first survivor. `None` after the
    /// attempt budget is a probabilistic give-up, not an exhaustive search —
    /// but when every drawable pair is admissible the first draw succeeds.
    pub fn random_edge(&self) -> (r: Option<(usize, usize)>)
        requires
            self.wf(),
            self.output_nodes + self.hidden_nodes >= 1,
        ensures
            match r {
                Option::None => !self.all_candidates_open(),
                Option::Some(e) => {
                    &&& e.0 != e.1
                    &&& e.0 < self.num_nodes
                    &&& e.1 < self.num_nodes
                    &&& (e.0 <= self.input_nodes || e.0 > self.input_nodes + self.output_nodes)
                    &&& e.1 > self.input_nodes
                    &&& !self.edges.spec_contains(e.0, e.1)
                    &&& cycle::acyclic(self@.with_conn(e.0 as int, cycle::probe_conn(e.1)))
                },
            },
    {
        let mut attempt: usize = 0;
        while attempt < 100
            invariant
                self.wf(),
                self.output_nodes + self.hidden_nodes >= 1,
                attempt > 0 ==> !self.all_candidates_open(),
            decreases 100 - attempt,
        {
            let hidden = self.hidden_nodes;
            let mut u = crate::rng::rand_usize(0, self.input_nodes + hidden);
            if u > self.input_nodes {
                u = u + self.output_nodes;
            }
            let v = self.input_nodes + 1 + crate::rng::rand_usize(
                0,
                self.output_nodes + hidden - 1,
            );
            proof {
                assert(self.candidate_pair(u, v));
            }
            if u == v || self.check_edge(u, v) {
                proof {
                    assert(!self.all_candidates_open());
                }
                attempt += 1;
                continue ;
            }
            if !self.cycle_probe(u, v, true) {
                return Some((u, v));
            }
            proof {
                assert(!self.all_candidates_open());
            }
            attempt += 1;
        }
        None
    }

    /// Splits the live connection `from -> to` through a fresh node carrying
    /// the historical identity `new_node_id`: the old connection is disabled,
    /// an identity-weight connection runs into the new node, and the old
    /// weight moves onto the connection out of it. When a node with that
    /// identity already exists the call is a no-op: a re-discovered
    /// historical split must not duplicate the node.
    pub fn split_edge(&mut self, from: usize, to: usize, inno_number: usize, new_node_id: usize)
        requires
            old(self).wf(),
            from < old(self).num_nodes,
            to < old(self).num_nodes,
            old(self)@.fresh_global(new_node_id) ==> {
                &&& old(self)@.live_pair(from, to)
                &&& old(self)@.fresh_inno(inno_number)
                &&& old(self)@.fresh_inno((inno_number + 1) as usize)
                &&& inno_number < usize::MAX
                &&& old(self).num_nodes < usize::MAX
                &&& total_len(old(self)@) + 2 <= CONN_CAP
            },
        ensures
            final(self).wf(),
            !old(self)@.fresh_global(new_node_id) ==> (final(self)@ == old(self)@ && final(
                self).num_connections == old(self).num_connections && final(self).edges == old(
                self).edges && final(self).num_nodes == old(self).num_nodes),
            old(self)@.fresh_global(new_node_id) ==> {
                let gv = old(self)@;
                let id = gv.nodes.len() as usize;
                let w = weight_to(gv.nodes[from as int].adj, to);
                let c1 = Connection { to: id, inno_number, active: true, weight: 1 };
                let c2 = Connection {
                    to,
                    inno_number: (inno_number + 1) as usize,
                    active: true,
                    weight: w,
                };
                &&& final(self)@ == gv.with_active(from as int, to, false).with_node(
                    new_node_id,
                ).with_conn(from as int, c1).with_conn(id as int, c2)
                &&& final(self).num_connections == old(self).num_connections + 1
                &&& final(self).num_nodes == old(self).num_nodes + 1
            },
            final(self).input_nodes == old(self).input_nodes,
            final(self).output_nodes == old(self).output_nodes,
            final(self).act == old(self).act,
    {
        if self.node_exists(new_node_id) {
            return ;
        }
        let ghost gv = old(self)@;
        let ghost oadj = gv.nodes[from as int].adj;
        let w = match self.nodes[from].edge_weight(to) {
            Some(w) => w,
            None => {
                proof {
                    let j = choose|j: int|
                        0 <= j < oadj.len() && (#[trigger] oadj[j]).active && oadj[j].to == to;
                    assert(Node::spec_edge_exists(oadj, to));
                }
                0
            },
        };
        proof {
            assert(oadj == self.nodes@[from as int].adj@);
            let j2 = choose|j: int|
                0 <= j < oadj.len() && (#[trigger] oadj[j]).to == to && oadj[j].weight == w;
            let jw = choose|j: int| 0 <= j < oadj.len() && (#[trigger] oadj[j]).to == to;
            assert(oadj[j2].to == to && oadj[jw].to == to);
            assert(j2 == jw);
            assert(w == weight_to(oadj, to));
            assert(-WEIGHT_CAP <= w <= WEIGHT_CAP);
        }
        self.disable_edge(from, to);
        let id = self.add_node(new_node_id);
        proof {
            // a rank witness for the whole rebuilt neighbourhood: double the
            // old ranks and slot the new node between `from` and `to`
            let r = choose|r: Seq<int>| cycle::valid_rank(gv, r);
            let live_j = choose|j: int|
                0 <= j < oadj.len() && (#[trigger] oadj[j]).active && oadj[j].to == to;
            assert(r[from as int] < r[to as int]);
            let n0 = gv.nodes.len() as int;
            let r2 = Seq::new(
                (n0 + 1) as nat,
                |k: int|
                    if k < n0 {
                        2 * r[k]
                    } else {
                        2 * r[from as int] + 1
                    },
            );
            let g2 = gv.with_active(from as int, to, false).with_node(new_node_id);
            let c1 = Connection { to: id, inno_number, active: true, weight: 1 };
            let c2 = Connection {
                to,
                inno_number: (inno_number + 1) as usize,
                active: true,
                weight: w,
            };
            let g3 = g2.with_conn(from as int, c1);
            let g4 = g3.with_conn(id as int, c2);
            assert(self@ == g2);
            let dadj = adj_with_active(oadj, to, false);
            assert forall|i: int, j: int|
                0 <= i < g4.nodes.len() && 0 <= j < g4.nodes[i].adj.len() && (#[trigger] g4.nodes[
                i].adj[j]).active implies r2[i] < r2[g4.nodes[i].adj[j].to as int] by {
                let c = g4.nodes[i].adj[j];
                if i == id as int {
                    assert(c == c2);
                    assert(r2[i] == 2 * r[from as int] + 1);
                    assert(r2[to as int] == 2 * r[to as int]);
                } else if i == from as int {
                    if j < oadj.len() {
                        assert(c == dadj[j]);
                        if oadj[j].to == to {
                            assert(!c.active);
                        } else {
                            assert(c == oadj[j]);
                            assert(r[i] < r[c.to as int]);
                            assert((c.to as int) < n0);
                        }
                    } else {
                        assert(c == c1);
                    }
                } else {
                    assert(i < n0);
                    assert(g4.nodes[i] == gv.nodes[i]);
                    assert(c == gv.nodes[i].adj[j]);
                    assert(r[i] < r[c.to as int]);
                    assert((c.to as int) < n0);
                }
            }
            assert(cycle::valid_rank(g4, r2));
            // the intermediate graph lacks only the second connection
            assert forall|i: int, j: int|
                0 <= i < g3.nodes.len() && 0 <= j < g3.nodes[i].adj.len() && (#[trigger] g3.nodes[
                i].adj[j]).active implies r2[i] < r2[g3.nodes[i].adj[j].to as int] by {
                if i == id as int {
                    assert(g3.nodes[i].adj.len() == 0);
                } else if i == from as int {
                    assert(g3.nodes[i].adj[j] == g4.nodes[i].adj[j]);
                    assert(g4.nodes[i].adj[j].active);
                } else {
                    assert(g3.nodes[i] == g4.nodes[i]);
                    assert(g4.nodes[i].adj[j].active);
                }
            }
            assert(cycle::valid_rank(g3, r2));
            assert(cycle::acyclic(g2.with_conn(from as int, c1)));
            // remaining obligations for the two appends
            assert forall|j: int| 0 <= j < g2.nodes[from as int].adj.len() implies (
            #[trigger] g2.nodes[from as int].adj[j]).to != id by {
                assert(g2.nodes[from as int].adj[j].to == oadj[j].to);
                assert((oadj[j].to as int) < n0);
            }
            assert(!Node::spec_edge_exists(g2.nodes[from as int].adj, id));
            assert forall|i: int, j: int|
                0 <= i < g2.n() && 0 <= j < g2.nodes[i].adj.len() implies (#[trigger] g2.nodes[
            i].adj[j]).inno_number != inno_number && g2.nodes[i].adj[j].inno_number != ((
            inno_number + 1) as usize) by {
                if i == from as int {
                    assert(g2.nodes[i].adj[j].inno_number == oadj[j].inno_number);
                } else if i < n0 {
                    assert(g2.nodes[i] == gv.nodes[i]);
                }
            }
            assert(g2.fresh_inno(inno_number));
            assert(g2.fresh_inno((inno_number + 1) as usize));
            let dnode = NodeV { global: gv.nodes[from as int].global, adj: dadj };
            lemma_total_len_upto_update(gv.nodes, from as int, dnode, n0);
            lemma_total_upto_push(gv.nodes.update(from as int, dnode), g2.nodes[n0], n0);
            assert(g2.nodes =~= gv.nodes.update(from as int, dnode).push(g2.nodes[n0]));
            assert(g2.nodes[n0].adj.len() == 0);
            assert(total_len(g2) == total_len_upto(g2.nodes, n0) + g2.nodes[n0].adj.len());
            assert(total_len(g2) == total_len(gv));
            // freshness of the second innovation number in the intermediate
            // graph: the first append adds `inno_number`, not its successor
            assert forall|i: int, j: int|
                0 <= i < g3.n() && 0 <= j < g3.nodes[i].adj.len() implies (#[trigger] g3.nodes[
            i].adj[j]).inno_number != ((inno_number + 1) as usize) by {
                if i == from as int && j == g2.nodes[from as int].adj.len() {
                    assert(g3.nodes[i].adj[j] == c1);
                } else {
                    assert(g3.nodes[i].adj[j] == g2.nodes[i].adj[j]);
                }
            }
            assert(g3.fresh_inno((inno_number + 1) as usize));
            assert(g3.nodes[id as int].adj.len() == 0);
            assert(!Node::spec_edge_exists(g3.nodes[id as int].adj, to));
            lemma_total_len_upto_update(g2.nodes, from as int, g3.nodes[from as int], n0 + 1);
            assert(total_len(g3) == total_len(g2) + 1);
        }
        self.add_edge(from, id, inno_number, 1, true);
        self.add_edge(id, to, inno_number + 1, w, true);
    }

    /// Draws one live non-bias edge uniformly at random as a split candidate,
    /// or `None` when the genome has no live non-bias edge.
    pub fn random_split(&self) -> (r: Option<(usize, usize)>)
        requires
            self.wf(),
        ensures
            match r {
                Option::None => self.edges.items@.len() == 0,
                Option::Some(e) => self.edges.spec_contains(e.0, e.1),
            },
    {
        let len = self.edges.len();
        if len == 0 {
            return None;
        }
        let idx = crate::rng::rand_usize(0, len - 1);
        let e = self.edges.nth(idx);
        proof {
            assert(self.edges.items@[idx as int] == e);
        }
        Some(e)
    }
}

} // verus!
