use vstd::prelude::*;
use vstd::set_lib::set_int_range;
use crate::genome::{Genome, GenomeV};
use crate::node::Connection;
use crate::cycle;

verus! {

/// Value a node holds before any contribution arrives: the input slot for an
/// input node, one for the bias node, zero for everything else.
pub open spec fn node_base(g: GenomeV, input: Seq<i64>, v: int) -> int {
    if 0 <= v < g.inputs {
        input[v] as int
    } else if v == g.inputs {
        1
    } else {
        0
    }
}

/// Active connections to `t` among the first `j` entries of one adjacency.
pub open spec fn row_count_upto(adj: Seq<Connection>, t: int, j: int) -> int
    decreases j,
{
    if j <= 0 {
        0
    } else {
        row_count_upto(adj, t, j - 1) + if adj[j - 1].active && adj[j - 1].to == t {
            1int
        } else {
            0int
        }
    }
}

pub open spec fn row_count(adj: Seq<Connection>, t: int) -> int {
    row_count_upto(adj, t, adj.len() as int)
}

/// Total weight of the active connections to `t` among the first `j` entries.
pub open spec fn row_weight_upto(adj: Seq<Connection>, t: int, j: int) -> int
    decreases j,
{
    if j <= 0 {
        0
    } else {
        row_weight_upto(adj, t, j - 1) + if adj[j - 1].active && adj[j - 1].to == t {
            adj[j - 1].weight as int
        } else {
            0int
        }
    }
}

pub open spec fn row_weight(adj: Seq<Connection>, t: int) -> int {
    row_weight_upto(adj, t, adj.len() as int)
}

/// Number of active connections into `t` from the first `k` nodes.
pub open spec fn in_count_upto(g: GenomeV, t: int, k: int) -> int
    decreases k,
{
    if k <= 0 {
        0
    } else {
        in_count_upto(g, t, k - 1) + row_count(g.nodes[k - 1].adj, t)
    }
}

pub open spec fn in_count(g: GenomeV, t: int) -> int {
    in_count_upto(g, t, g.nodes.len() as int)
}

/// The value a node takes under feed-forward evaluation, defined by
/// well-founded recursion over a fuel bound on the recursion depth: a node
/// with no active incoming connection keeps its base value, every other node
/// applies the activation to its base plus the weighted sum of its
/// predecessors' values.
pub open spec fn node_value(g: GenomeV, input: Seq<i64>, v: int, fuel: nat) -> int
    decreases fuel, 0int,
{
    if !(0 <= v < g.nodes.len()) {
        0
    } else if in_count(g, v) == 0 {
        node_base(g, input, v)
    } else if fuel == 0 {
        0
    } else {
        g.act.apply_spec(
            node_base(g, input, v) + in_sum(
                g,
                input,
                v,
                (fuel - 1) as nat,
                g.nodes.len() as int,
            ),
        )
    }
}

/// Weighted sum of the first `k` nodes' contributions into `v`.
pub open spec fn in_sum(g: GenomeV, input: Seq<i64>, v: int, fuel: nat, k: int) -> int
    decreases fuel, k,
{
    if k <= 0 {
        0
    } else {
        in_sum(g, input, v, fuel, k - 1) + node_value(g, input, k - 1, fuel) * row_weight(
            g.nodes[k - 1].adj,
            v,
        )
    }
}

/// The value of node `v` when the genome is evaluated on `input`: the fuel
/// bound `n` covers every path of an acyclic graph on `n` nodes.
pub open spec fn eval_value(g: GenomeV, input: Seq<i64>, v: int) -> int {
    node_value(g, input, v, g.nodes.len() as nat)
}

/// Weighted sum of the first `k` nodes' contributions into `t`, written with
/// the final node values.
pub open spec fn full_sum(g: GenomeV, input: Seq<i64>, t: int, k: int) -> int
    decreases k,
{
    if k <= 0 {
        0
    } else {
        full_sum(g, input, t, k - 1) + eval_value(g, input, k - 1) * row_weight(
            g.nodes[k - 1].adj,
            t,
        )
    }
}

/// The part of `full_sum` contributed by nodes in `s`.
pub open spec fn masked_sum(g: GenomeV, input: Seq<i64>, t: int, k: int, s: Set<int>) -> int
    decreases k,
{
    if k <= 0 {
        0
    } else {
        masked_sum(g, input, t, k - 1, s) + if s.contains(k - 1) {
            eval_value(g, input, k - 1) * row_weight(g.nodes[k - 1].adj, t)
        } else {
            0int
        }
    }
}

/// The number of active connections into `t` from nodes in `s`.
pub open spec fn masked_cnt(g: GenomeV, t: int, k: int, s: Set<int>) -> int
    decreases k,
{
    if k <= 0 {
        0
    } else {
        masked_cnt(g, t, k - 1, s) + if s.contains(k - 1) {
            row_count(g.nodes[k - 1].adj, t)
        } else {
            0int
        }
    }
}

/// Sum of the contribution magnitudes into `t`: an upper bound on every
/// partial accumulation, in any relaxation order.
pub open spec fn abs_sum(g: GenomeV, input: Seq<i64>, t: int, k: int) -> int
    decreases k,
{
    if k <= 0 {
        0
    } else {
        abs_sum(g, input, t, k - 1) + abs(
            eval_value(g, input, k - 1) * row_weight(g.nodes[k - 1].adj, t),
        )
    }
}

pub open spec fn abs(x: int) -> int {
    if x < 0 {
        -x
    } else {
        x
    }
}

/// Every accumulator the evaluation forms stays representable: for each node
/// the base magnitude plus all contribution magnitudes fits an `i64`.
pub open spec fn eval_safe(g: GenomeV, input: Seq<i64>) -> bool {
    forall|t: int|
        0 <= t < g.nodes.len() ==> abs(node_base(g, input, t)) + abs_sum(
            g,
            input,
            t,
            g.nodes.len() as int,
        ) <= i64::MAX
}

/// Nodes ranked strictly below `v` by the witness `r`.
pub open spec fn below(g: GenomeV, r: Seq<int>, v: int) -> Set<int> {
    Set::new(|u: int| 0 <= u < g.nodes.len() && r[u] < r[v])
}

pub open spec fn depth(g: GenomeV, r: Seq<int>, v: int) -> nat {
    below(g, r, v).len()
}

pub proof fn lemma_below_finite(g: GenomeV, r: Seq<int>, v: int)
    ensures
        below(g, r, v).finite(),
        below(g, r, v).len() <= g.nodes.len(),
        0 <= v < g.nodes.len() ==> below(g, r, v).len() <= g.nodes.len() - 1,
{
    let s = below(g, r, v);
    let rng = set_int_range(0, g.nodes.len() as int);
    vstd::set_lib::lemma_int_range(0, g.nodes.len() as int);
    assert(rng.finite());
    assert(s.subset_of(rng));
    vstd::set_lib::lemma_len_subset(s, rng);
    if 0 <= v < g.nodes.len() {
        let rng2 = rng.remove(v);
        assert(!s.contains(v));
        assert(s.subset_of(rng2));
        vstd::set_lib::lemma_len_subset(s, rng2);
    }
}

/// An active connection `u -> v` forces `u` strictly shallower than `v`.
pub proof fn lemma_depth_edge(g: GenomeV, r: Seq<int>, u: int, v: int, j: int)
    requires
        cycle::valid_rank(g, r),
        0 <= u < g.nodes.len(),
        0 <= v < g.nodes.len(),
        0 <= j < g.nodes[u].adj.len(),
        g.nodes[u].adj[j].active,
        g.nodes[u].adj[j].to == v,
    ensures
        depth(g, r, u) < depth(g, r, v),
{
    assert(r[u] < r[v]);
    let su = below(g, r, u);
    let sv = below(g, r, v);
    lemma_below_finite(g, r, u);
    lemma_below_finite(g, r, v);
    assert(su.subset_of(sv.remove(u)));
    assert(sv.remove(u).len() == sv.len() - 1) by {
        assert(sv.contains(u));
    }
    vstd::set_lib::lemma_len_subset(su, sv.remove(u));
}

/// A row with no active connection to `t` also contributes no weight; a row
/// whose prefix already holds every active connection adds no further weight.
pub proof fn lemma_row_zero(adj: Seq<Connection>, t: int, j: int)
    requires
        0 <= j <= adj.len(),
        row_count(adj, t) == row_count_upto(adj, t, j),
    ensures
        row_weight(adj, t) == row_weight_upto(adj, t, j),
    decreases adj.len() - j,
{
    if j < adj.len() {
        lemma_row_count_mono(adj, t, j, j + 1);
        lemma_row_count_mono(adj, t, j + 1, adj.len() as int);
        assert(!(adj[j].active && adj[j].to == t));
        lemma_row_zero(adj, t, j + 1);
    }
}

pub proof fn lemma_row_count_mono(adj: Seq<Connection>, t: int, j1: int, j2: int)
    requires
        0 <= j1 <= j2 <= adj.len(),
    ensures
        row_count_upto(adj, t, j1) <= row_count_upto(adj, t, j2),
    decreases j2 - j1,
{
    if j1 < j2 {
        lemma_row_count_mono(adj, t, j1, j2 - 1);
    }
}

/// An active connection to `t` at position `j` pushes the row count past the
/// prefix before it.
pub proof fn lemma_row_count_at(adj: Seq<Connection>, t: int, j: int)
    requires
        0 <= j < adj.len(),
        adj[j].active,
        adj[j].to == t,
    ensures
        row_count(adj, t) >= row_count_upto(adj, t, j) + 1,
{
    lemma_row_count_mono(adj, t, j + 1, adj.len() as int);
}

/// A positive row count exposes one active connection to `t`.
pub proof fn lemma_row_count_pos(adj: Seq<Connection>, t: int, j: int)
    requires
        0 <= j <= adj.len(),
        row_count_upto(adj, t, j) > 0,
    ensures
        exists|e: int| 0 <= e < j && (#[trigger] adj[e]).active && adj[e].to == t,
    decreases j,
{
    if j > 0 {
        if adj[j - 1].active && adj[j - 1].to == t {
        } else {
            lemma_row_count_pos(adj, t, j - 1);
        }
    }
}

pub proof fn lemma_row_count_nonneg(adj: Seq<Connection>, t: int, j: int)
    requires
        0 <= j <= adj.len(),
    ensures
        0 <= row_count_upto(adj, t, j) <= j,
    decreases j,
{
    if j > 0 {
        lemma_row_count_nonneg(adj, t, j - 1);
    }
}

/// Rows with distinct targets hold at most one connection to `t`; an active
/// one fixes the row's count and weight exactly.
pub proof fn lemma_row_single(adj: Seq<Connection>, t: int, j: int)
    requires
        forall|j1: int, j2: int|
            0 <= j1 < j2 < adj.len() ==> (#[trigger] adj[j1]).to != (#[trigger] adj[j2]).to,
        0 <= j < adj.len(),
        adj[j].active,
        adj[j].to == t,
    ensures
        row_count(adj, t) == 1,
        row_weight(adj, t) == adj[j].weight,
        row_count_upto(adj, t, j) == 0,
        row_weight_upto(adj, t, j) == 0,
        row_count_upto(adj, t, j + 1) == 1,
        row_weight_upto(adj, t, j + 1) == adj[j].weight,
{
    assert forall|e: int| 0 <= e < j implies !((#[trigger] adj[e]).active && adj[e].to == t) by {
        assert(adj[e].to != adj[j].to);
    }
    lemma_row_silent_range(adj, t, 0, j);
    assert(row_count_upto(adj, t, j + 1) == 1);
    assert(row_weight_upto(adj, t, j + 1) == adj[j].weight);
    assert forall|e: int|
        j + 1 <= e < adj.len() implies !((#[trigger] adj[e]).active && adj[e].to == t) by {
        assert(adj[j].to != adj[e].to);
    }
    lemma_row_silent_suffix(adj, t, j + 1);
}

/// Entries other than `j` never aim at `t`; prefix sums up to `j` are zero.
proof fn lemma_row_silent_range(adj: Seq<Connection>, t: int, lo: int, hi: int)
    requires
        0 <= lo <= hi <= adj.len(),
        forall|e: int| lo <= e < hi ==> !((#[trigger] adj[e]).active && adj[e].to == t),
        row_count_upto(adj, t, lo) == 0,
        row_weight_upto(adj, t, lo) == 0,
    ensures
        row_count_upto(adj, t, hi) == 0,
        row_weight_upto(adj, t, hi) == 0,
    decreases hi - lo,
{
    if lo < hi {
        assert(!(adj[lo].active && adj[lo].to == t));
        lemma_row_silent_range(adj, t, lo + 1, hi);
    }
}

proof fn lemma_row_silent_suffix(adj: Seq<Connection>, t: int, j: int)
    requires
        0 <= j <= adj.len(),
        forall|e: int| j <= e < adj.len() ==> !((#[trigger] adj[e]).active && adj[e].to == t),
    ensures
        row_count(adj, t) == row_count_upto(adj, t, j),
        row_weight(adj, t) == row_weight_upto(adj, t, j),
    decreases adj.len() - j,
{
    if j < adj.len() {
        lemma_row_silent_suffix(adj, t, j + 1);
    }
}

/// Once the fuel covers a node's depth, more fuel does not change its value.
pub proof fn lemma_value_stable(g: GenomeV, input: Seq<i64>, r: Seq<int>, v: int, f1: nat, f2: nat)
    requires
        cycle::valid_rank(g, r),
        0 <= v < g.nodes.len(),
        f1 >= depth(g, r, v) + 1,
        f2 >= depth(g, r, v) + 1,
    ensures
        node_value(g, input, v, f1) == node_value(g, input, v, f2),
    decreases depth(g, r, v), g.nodes.len() + 1,
{
    if in_count(g, v) != 0 {
        lemma_in_sum_stable(
            g,
            input,
            r,
            v,
            (f1 - 1) as nat,
            (f2 - 1) as nat,
            g.nodes.len() as int,
        );
    }
}

proof fn lemma_in_sum_stable(
    g: GenomeV,
    input: Seq<i64>,
    r: Seq<int>,
    v: int,
    f1: nat,
    f2: nat,
    k: int,
)
    requires
        cycle::valid_rank(g, r),
        0 <= v < g.nodes.len(),
        k <= g.nodes.len(),
        f1 + 1 >= depth(g, r, v) + 1,
        f2 + 1 >= depth(g, r, v) + 1,
        f1 >= depth(g, r, v),
        f2 >= depth(g, r, v),
    ensures
        in_sum(g, input, v, f1, k) == in_sum(g, input, v, f2, k),
    decreases depth(g, r, v), k,
{
    if k > 0 {
        lemma_in_sum_stable(g, input, r, v, f1, f2, k - 1);
        let u = k - 1;
        let rw = row_weight(g.nodes[u].adj, v);
        if rw != 0 {
            lemma_row_count_nonneg(g.nodes[u].adj, v, g.nodes[u].adj.len() as int);
            if row_count(g.nodes[u].adj, v) == 0 {
                lemma_row_silent_zero(g.nodes[u].adj, v, g.nodes[u].adj.len() as int);
                assert(false);
            }
            lemma_row_count_pos(g.nodes[u].adj, v, g.nodes[u].adj.len() as int);
            let e = choose|e: int|
                0 <= e < g.nodes[u].adj.len() && (#[trigger] g.nodes[u].adj[e]).active && g.nodes[
                    u].adj[e].to == v;
            assert((g.nodes[u].adj[e].to as int) == v);
            lemma_depth_edge(g, r, u, v, e);
            lemma_value_stable(g, input, r, u, f1, f2);
        } else {
            assert(node_value(g, input, u, f1) * rw == 0);
            assert(node_value(g, input, u, f2) * rw == 0);
        }
    }
}

/// A row with count zero contributes weight zero.
proof fn lemma_row_silent_zero(adj: Seq<Connection>, t: int, j: int)
    requires
        0 <= j <= adj.len(),
        row_count_upto(adj, t, j) == 0,
    ensures
        row_weight_upto(adj, t, j) == 0,
    decreases j,
{
    if j > 0 {
        lemma_row_count_nonneg(adj, t, j - 1);
        lemma_row_silent_zero(adj, t, j - 1);
    }
}

/// The fuel-free sum of final values equals the fueled sum that defines
/// `eval_value` for any node of positive in-degree.
pub proof fn lemma_full_sum_eq(g: GenomeV, input: Seq<i64>, r: Seq<int>, t: int, k: int)
    requires
        cycle::valid_rank(g, r),
        0 <= t < g.nodes.len(),
        0 <= k <= g.nodes.len(),
        g.nodes.len() >= 1,
    ensures
        full_sum(g, input, t, k) == in_sum(
            g,
            input,
            t,
            (g.nodes.len() - 1) as nat,
            k,
        ),
    decreases k,
{
    let n = g.nodes.len() as nat;
    if k > 0 {
        lemma_full_sum_eq(g, input, r, t, k - 1);
        let u = k - 1;
        let rw = row_weight(g.nodes[u].adj, t);
        if rw != 0 {
            lemma_row_count_nonneg(g.nodes[u].adj, t, g.nodes[u].adj.len() as int);
            if row_count(g.nodes[u].adj, t) == 0 {
                lemma_row_silent_zero(g.nodes[u].adj, t, g.nodes[u].adj.len() as int);
                assert(false);
            }
            lemma_row_count_pos(g.nodes[u].adj, t, g.nodes[u].adj.len() as int);
            let e = choose|e: int|
                0 <= e < g.nodes[u].adj.len() && (#[trigger] g.nodes[u].adj[e]).active && g.nodes[
                    u].adj[e].to == t;
            lemma_depth_edge(g, r, u, t, e);
            lemma_below_finite(g, r, t);
            assert(depth(g, r, u) + 1 <= n - 1);
            lemma_value_stable(g, input, r, u, n, (n - 1) as nat);
        } else {
            assert(eval_value(g, input, u) * rw == 0);
            assert(node_value(g, input, u, (n - 1) as nat) * rw == 0);
        }
    }
}

/// The defining equation of `eval_value` over the fuel-free sum.
pub proof fn lemma_eval_value_unfold(g: GenomeV, input: Seq<i64>, t: int)
    requires
        cycle::acyclic(g),
        0 <= t < g.nodes.len(),
        in_count(g, t) != 0,
    ensures
        eval_value(g, input, t) == g.act.apply_spec(
            node_base(g, input, t) + full_sum(g, input, t, g.nodes.len() as int),
        ),
{
    let r = choose|r: Seq<int>| cycle::valid_rank(g, r);
    lemma_full_sum_eq(g, input, r, t, g.nodes.len() as int);
}

/// Adding one node to the mask adds exactly its contribution.
pub proof fn lemma_masked_insert(
    g: GenomeV,
    input: Seq<i64>,
    t: int,
    k: int,
    s: Set<int>,
    u: int,
)
    requires
        0 <= u,
        !s.contains(u),
    ensures
        masked_sum(g, input, t, k, s.insert(u)) == masked_sum(g, input, t, k, s) + if u < k {
            eval_value(g, input, u) * row_weight(g.nodes[u].adj, t)
        } else {
            0int
        },
        masked_cnt(g, t, k, s.insert(u)) == masked_cnt(g, t, k, s) + if u < k {
            row_count(g.nodes[u].adj, t)
        } else {
            0int
        },
    decreases k,
{
    if k > 0 {
        lemma_masked_insert(g, input, t, k - 1, s, u);
    }
}

/// Masked counts never exceed the full count, and masked sums of a complete
/// mask equal the full sum.
pub proof fn lemma_masked_le(g: GenomeV, t: int, k: int, s: Set<int>)
    ensures
        masked_cnt(g, t, k, s) <= in_count_upto(g, t, k),
        masked_cnt(g, t, k, s) >= 0,
        in_count_upto(g, t, k) >= 0,
    decreases k,
{
    if k > 0 {
        lemma_masked_le(g, t, k - 1, s);
        lemma_row_count_nonneg(g.nodes[k - 1].adj, t, g.nodes[k - 1].adj.len() as int);
    }
}

/// When the masked count has caught the full count, every unmasked row is
/// silent and the masked sum is the full sum.
pub proof fn lemma_masked_complete(g: GenomeV, input: Seq<i64>, t: int, k: int, s: Set<int>)
    requires
        masked_cnt(g, t, k, s) == in_count_upto(g, t, k),
    ensures
        masked_sum(g, input, t, k, s) == full_sum(g, input, t, k),
    decreases k,
{
    if k > 0 {
        lemma_masked_le(g, t, k - 1, s);
        lemma_row_count_nonneg(g.nodes[k - 1].adj, t, g.nodes[k - 1].adj.len() as int);
        if s.contains(k - 1) {
            lemma_masked_complete(g, input, t, k - 1, s);
        } else {
            assert(masked_cnt(g, t, k, s) == masked_cnt(g, t, k - 1, s));
            assert(row_count(g.nodes[k - 1].adj, t) == 0);
            lemma_masked_complete(g, input, t, k - 1, s);
            lemma_row_silent_zero(g.nodes[k - 1].adj, t, g.nodes[k - 1].adj.len() as int);
            assert(eval_value(g, input, k - 1) * row_weight(g.nodes[k - 1].adj, t) == 0);
        }
    }
}

/// A strictly short masked count exposes an active connection from an
/// unmasked node.
pub proof fn lemma_masked_short(g: GenomeV, t: int, k: int, s: Set<int>)
    requires
        masked_cnt(g, t, k, s) < in_count_upto(g, t, k),
    ensures
        exists|u: int, e: int|
            0 <= u < k && !s.contains(u) && 0 <= e < g.nodes[u].adj.len() && (#[trigger] g.nodes[
                u].adj[e]).active && g.nodes[u].adj[e].to == t,
    decreases k,
{
    if k > 0 {
        let u = k - 1;
        if s.contains(u) {
            lemma_masked_short(g, t, k - 1, s);
        } else {
            lemma_masked_le(g, t, k - 1, s);
            lemma_row_count_nonneg(g.nodes[u].adj, t, g.nodes[u].adj.len() as int);
            if row_count(g.nodes[u].adj, t) > 0 {
                lemma_row_count_pos(g.nodes[u].adj, t, g.nodes[u].adj.len() as int);
            } else {
                lemma_masked_short(g, t, k - 1, s);
            }
        }
    }
}

/// Any masked partial sum is bounded by the magnitude sum.
pub proof fn lemma_masked_abs(g: GenomeV, input: Seq<i64>, t: int, k: int, s: Set<int>)
    ensures
        abs(masked_sum(g, input, t, k, s)) <= abs_sum(g, input, t, k),
        abs_sum(g, input, t, k) >= 0,
    decreases k,
{
    if k > 0 {
        lemma_masked_abs(g, input, t, k - 1, s);
    }
}

pub proof fn lemma_abs_sum_mono(g: GenomeV, input: Seq<i64>, t: int, k1: int, k2: int)
    requires
        0 <= k1 <= k2,
    ensures
        abs_sum(g, input, t, k1) <= abs_sum(g, input, t, k2),
    decreases k2 - k1,
{
    if k1 < k2 {
        lemma_abs_sum_mono(g, input, t, k1, k2 - 1);
    }
}

/// The in-degree of any node is bounded by the connection total.
pub proof fn lemma_in_count_le_total(g: GenomeV, t: int, k: int)
    requires
        0 <= k <= g.nodes.len(),
    ensures
        in_count_upto(g, t, k) <= crate::genome::total_len_upto(g.nodes, k),
    decreases k,
{
    if k > 0 {
        lemma_in_count_le_total(g, t, k - 1);
        lemma_row_count_nonneg(g.nodes[k - 1].adj, t, g.nodes[k - 1].adj.len() as int);
    }
}

pub proof fn lemma_masked_empty(g: GenomeV, input: Seq<i64>, t: int, k: int)
    ensures
        masked_sum(g, input, t, k, Set::<int>::empty()) == 0,
        masked_cnt(g, t, k, Set::<int>::empty()) == 0,
    decreases k,
{
    if k > 0 {
        lemma_masked_empty(g, input, t, k - 1);
    }
}

pub proof fn lemma_in_count_mono(g: GenomeV, t: int, k1: int, k2: int)
    requires
        0 <= k1 <= k2,
    ensures
        in_count_upto(g, t, k1) <= in_count_upto(g, t, k2),
    decreases k2 - k1,
{
    if k1 < k2 {
        lemma_in_count_mono(g, t, k1, k2 - 1);
        lemma_row_count_nonneg(g.nodes[k2 - 1].adj, t, g.nodes[k2 - 1].adj.len() as int);
    }
}

/// A single contribution magnitude is below the magnitude total.
pub proof fn lemma_abs_term(g: GenomeV, input: Seq<i64>, t: int, u: int, k: int)
    requires
        0 <= u < k,
    ensures
        abs(eval_value(g, input, u) * row_weight(g.nodes[u].adj, t)) <= abs_sum(g, input, t, k),
{
    lemma_masked_abs(g, input, t, u, Set::<int>::empty());
    lemma_abs_sum_mono(g, input, t, u + 1, k);
    lemma_abs_sum_mono(g, input, t, 0, u);
}

/// A finite nonempty set of nodes has a member of minimal rank.
pub proof fn lemma_min_rank(s: Set<int>, r: Seq<int>)
    requires
        s.finite(),
        s.len() > 0,
    ensures
        exists|v: int|
            s.contains(v) && forall|u: int| s.contains(u) ==> r[v] <= #[trigger] r[u],
    decreases s.len(),
{
    let x = s.choose();
    assert(s.contains(x));
    let rest = s.remove(x);
    if rest.len() == 0 {
        assert forall|u: int| s.contains(u) implies r[x] <= r[u] by {
            if u != x {
                assert(rest.contains(u));
                assert(rest.len() > 0) by {
                    vstd::set_lib::lemma_len_subset(rest, rest);
                    assert(rest.contains(u));
                    lemma_member_len(rest, u);
                }
            }
        }
        assert(s.contains(x) && forall|u: int| s.contains(u) ==> r[x] <= #[trigger] r[u]);
    } else {
        lemma_min_rank(rest, r);
        let m = choose|v: int|
            rest.contains(v) && forall|u: int| rest.contains(u) ==> r[v] <= #[trigger] r[u];
        if r[x] <= r[m] {
            assert forall|u: int| s.contains(u) implies r[x] <= r[u] by {
                if u != x {
                    assert(rest.contains(u));
                }
            }
            assert(s.contains(x) && forall|u: int| s.contains(u) ==> r[x] <= #[trigger] r[u]);
        } else {
            assert forall|u: int| s.contains(u) implies r[m] <= r[u] by {
                if u != x {
                    assert(rest.contains(u));
                }
            }
            assert(s.contains(m) && forall|u: int| s.contains(u) ==> r[m] <= #[trigger] r[u]);
        }
    }
}

proof fn lemma_member_len(s: Set<int>, u: int)
    requires
        s.finite(),
        s.contains(u),
    ensures
        s.len() > 0,
{
    if s.len() == 0 {
        assert(s =~= Set::<int>::empty());
    }
}


/// No connection of the genome aims at node `t`.
proof fn lemma_no_row_hits(adj: Seq<Connection>, t: int, j: int)
    requires
        0 <= j <= adj.len(),
        forall|e: int| 0 <= e < adj.len() ==> (#[trigger] adj[e]).to != t,
    ensures
        row_count_upto(adj, t, j) == 0,
        row_weight_upto(adj, t, j) == 0,
    decreases j,
{
    if j > 0 {
        lemma_no_row_hits(adj, t, j - 1);
    }
}

/// Shape of the fully connected starting genome: every input carries one
/// unit-weight active connection to each output, in output order; the bias
/// and the outputs carry none.
pub open spec fn fully_connected_unit(g: GenomeV) -> bool {
    &&& g.act == crate::activation::Activation::Identity
    &&& g.nodes.len() == g.inputs + g.outputs + 1
    &&& forall|i: int| 0 <= i < g.inputs ==> (#[trigger] g.nodes[i]).adj.len() == g.outputs
    &&& forall|i: int, j: int|
        #![trigger g.nodes[i].adj[j]]
        0 <= i < g.inputs && 0 <= j < g.nodes[i].adj.len() ==> {
            let c = g.nodes[i].adj[j];
            (c.to as int) == g.inputs + 1 + j && c.weight == 1 && c.active
        }
    &&& forall|i: int|
        g.inputs <= i < g.nodes.len() ==> (#[trigger] g.nodes[i]).adj.len() == 0
}

/// Over such a genome no connection reaches a source node, and one output's
/// incoming row from each input counts one and weighs one.
proof fn lemma_fc_incount(g: GenomeV, t: int, r: int)
    requires
        fully_connected_unit(g),
        g.inputs < t < g.nodes.len(),
        0 <= r <= g.nodes.len(),
    ensures
        in_count_upto(g, t, r) == if r <= g.inputs {
            r
        } else {
            g.inputs as int
        },
        full_sum_units(g, t, r) == in_count_upto(g, t, r),
    decreases r,
{
    if r > 0 {
        lemma_fc_incount(g, t, r - 1);
        let adj = g.nodes[r - 1].adj;
        if r - 1 < g.inputs {
            let k = t - g.inputs - 1;
            assert(adj[k].to == t && adj[k].active && adj[k].weight == 1);
            assert forall|j1: int, j2: int|
                0 <= j1 < j2 < adj.len() implies (#[trigger] adj[j1]).to != (
            #[trigger] adj[j2]).to by {}
            lemma_row_single(adj, t, k);
        } else {
            assert(adj.len() == 0);
            lemma_no_row_hits(adj, t, adj.len() as int);
        }
    }
}

/// The weighted in-flow into `t`, written with the constant source values a
/// fully connected unit genome produces.
pub open spec fn full_sum_units(g: GenomeV, t: int, r: int) -> int
    decreases r,
{
    if r <= 0 {
        0
    } else {
        full_sum_units(g, t, r - 1) + row_weight(g.nodes[r - 1].adj, t)
    }
}

/// A source node of the fully connected unit genome takes its base value at
/// any fuel: nothing feeds it.
proof fn lemma_fc_source_value(g: GenomeV, input: Seq<i64>, u: int, fuel: nat)
    requires
        fully_connected_unit(g),
        0 <= u <= g.inputs,
    ensures
        node_value(g, input, u, fuel) == node_base(g, input, u),
{
    assert forall|r: int| 0 <= r <= g.nodes.len() implies in_count_upto(g, u, r) == 0 by {
        lemma_fc_no_inflow(g, u, r);
    }
    assert(in_count(g, u) == 0);
}

proof fn lemma_fc_no_inflow(g: GenomeV, u: int, r: int)
    requires
        fully_connected_unit(g),
        0 <= u <= g.inputs,
        0 <= r <= g.nodes.len(),
    ensures
        in_count_upto(g, u, r) == 0,
    decreases r,
{
    if r > 0 {
        lemma_fc_no_inflow(g, u, r - 1);
        let adj = g.nodes[r - 1].adj;
        assert forall|e: int| 0 <= e < adj.len() implies (#[trigger] adj[e]).to != u by {
            if r - 1 < g.inputs {
                assert((adj[e].to as int) == g.inputs + 1 + e);
            } else {
                assert(adj.len() == 0);
            }
        }
        lemma_no_row_hits(adj, u, adj.len() as int);
    }
}

/// The in-flow of an output equals one unit per input, at any fuel.
proof fn lemma_fc_insum(g: GenomeV, input: Seq<i64>, t: int, fuel: nat, r: int)
    requires
        fully_connected_unit(g),
        input.len() == g.inputs,
        forall|v: int| 0 <= v < g.inputs ==> #[trigger] input[v] == 1,
        g.inputs < t < g.nodes.len(),
        0 <= r <= g.nodes.len(),
    ensures
        in_sum(g, input, t, fuel, r) == if r <= g.inputs {
            r
        } else {
            g.inputs as int
        },
    decreases r,
{
    if r > 0 {
        lemma_fc_insum(g, input, t, fuel, r - 1);
        let u = r - 1;
        let adj = g.nodes[u].adj;
        if u < g.inputs {
            lemma_fc_source_value(g, input, u, fuel);
            assert(node_value(g, input, u, fuel) == 1);
            let k = t - g.inputs - 1;
            assert(adj[k].to == t && adj[k].active && adj[k].weight == 1);
            assert forall|j1: int, j2: int|
                0 <= j1 < j2 < adj.len() implies (#[trigger] adj[j1]).to != (
            #[trigger] adj[j2]).to by {}
            lemma_row_single(adj, t, k);
            assert(row_weight(adj, t) == 1);
        } else {
            assert(adj.len() == 0);
            lemma_no_row_hits(adj, t, adj.len() as int);
            assert(row_weight(adj, t) == 0);
            assert(node_value(g, input, u, fuel) * 0 == 0);
        }
    }
}

/// Topological evaluation of the fully connected unit genome: under the
/// identity activation, an all-ones input puts one unit per input on every
/// output — each output sums exactly one contribution per input, and the
/// unconnected bias adds nothing.
pub proof fn lemma_fully_connected_eval(g: GenomeV, input: Seq<i64>)
    requires
        fully_connected_unit(g),
        input.len() == g.inputs,
        forall|v: int| 0 <= v < g.inputs ==> #[trigger] input[v] == 1,
    ensures
        forall|k: int|
            0 <= k < g.outputs ==> #[trigger] eval_value(g, input, g.inputs + 1 + k) == g.inputs,
{
    assert forall|k: int|
        0 <= k < g.outputs implies #[trigger] eval_value(g, input, g.inputs + 1 + k)
        == g.inputs by {
        let t = g.inputs + 1 + k;
        lemma_fc_incount(g, t, g.nodes.len() as int);
        let n = g.nodes.len() as nat;
        if g.inputs == 0 {
            assert(in_count(g, t) == 0);
            assert(node_value(g, input, t, n) == node_base(g, input, t));
        } else {
            assert(in_count(g, t) == g.inputs);
            assert(n >= 1);
            lemma_fc_insum(g, input, t, (n - 1) as nat, g.nodes.len() as int);
            assert(node_value(g, input, t, n) == g.act.apply_spec(
                node_base(g, input, t) + in_sum(g, input, t, (n - 1) as nat, g.nodes.len() as int),
            ));
            assert(node_base(g, input, t) == 0);
        }
    }
}

impl Genome {
    /// Feed-forward evaluation by a topological pass over the active graph:
    /// input slots are seeded, the bias node holds one, in-degrees counted
    /// over active connections drive a ready queue, and each node's
    /// activation fires once all its contributions have arrived. Nodes no
    /// active connection reaches keep their base value. Returns the output
    /// nodes' values in order.
    #[verifier::rlimit(80)]
    pub fn evaluate(&self, input: &Vec<i64>) -> (out: Vec<i64>)
        requires
            self.wf(),
            input@.len() == self.input_nodes,
            eval_safe(self@, input@),
        ensures
            out@.len() == self.output_nodes,
            forall|k: int|
                0 <= k < self.output_nodes ==> #[trigger] out@[k] == eval_value(
                    self@,
                    input@,
                    self.input_nodes + 1 + k,
                ),
    {
        let ghost gv = self@;
        let n = self.nodes.len();
        // in-degrees over active connections
        let mut in_deg: Vec<usize> = Vec::new();
        let mut i: usize = 0;
        while i < n
            invariant
                0 <= i <= n,
                in_deg@.len() == i,
                forall|t: int| 0 <= t < i ==> #[trigger] in_deg@[t] == 0,
            decreases n - i,
        {
            in_deg.push(0);
            i += 1;
        }
        proof {
            assert forall|t: int| 0 <= t < n implies #[trigger] in_deg@[t] == in_count_upto(
                gv,
                t,
                0,
            ) by {}
        }
        let mut u: usize = 0;
        while u < n
            invariant
                self.wf(),
                gv == self@,
                n == gv.nodes.len(),
                0 <= u <= n,
                in_deg@.len() == n,
                forall|t: int|
                    0 <= t < n ==> #[trigger] in_deg@[t] == in_count_upto(gv, t, u as int),
            decreases n - u,
        {
            let ghost row = gv.nodes[u as int].adj;
            proof {
                assert(row == self.nodes@[u as int].adj@);
            }
            let node_ref = &self.nodes[u];
            let m = node_ref.adj.len();
            let mut j: usize = 0;
            while j < m
                invariant
                    self.wf(),
                    gv == self@,
                    n == gv.nodes.len(),
                    0 <= u < n,
                    0 <= j <= m,
                    m == row.len(),
                    row == gv.nodes[u as int].adj,
                    row == node_ref.adj@,
                    in_deg@.len() == n,
                    forall|t: int|
                        0 <= t < n ==> #[trigger] in_deg@[t] == in_count_upto(gv, t, u as int)
                            + row_count_upto(row, t, j as int),
                decreases m - j,
            {
                let c = node_ref.adj[j];
                if c.active {
                    let t = c.to;
                    proof {
                        assert((c.to as int) < n && c.to != u);
                        lemma_row_count_at(row, t as int, j as int);
                        lemma_in_count_mono(gv, t as int, u as int + 1, n as int);
                        lemma_in_count_le_total(gv, t as int, n as int);
                        crate::genome::lemma_totals_bounds(gv.nodes, n as int);
                        assert(in_count_upto(gv, t as int, u as int + 1) == in_count_upto(
                            gv,
                            t as int,
                            u as int,
                        ) + row_count(row, t as int));
                        assert(in_deg@[t as int] + 1 <= crate::genome::CONN_CAP);
                    }
                    let d = in_deg[t];
                    in_deg.set(t, d + 1);
                }
                j += 1;
            }
            proof {
                assert forall|t: int| 0 <= t < n implies #[trigger] in_deg@[t] == in_count_upto(
                    gv,
                    t,
                    u as int + 1,
                ) by {
                    assert(row_count_upto(row, t, m as int) == row_count(row, t));
                }
            }
            u += 1;
        }
        // base values: inputs from the vector, one for the bias
        let mut node_values: Vec<i64> = Vec::new();
        let mut i2: usize = 0;
        while i2 < n
            invariant
                0 <= i2 <= n,
                node_values@.len() == i2,
                forall|t: int| 0 <= t < i2 ==> #[trigger] node_values@[t] == 0,
            decreases n - i2,
        {
            node_values.push(0);
            i2 += 1;
        }
        let mut i3: usize = 0;
        while i3 < input.len()
            invariant
                self.wf(),
                gv == self@,
                n == gv.nodes.len(),
                input@.len() == self.input_nodes,
                0 <= i3 <= input@.len(),
                node_values@.len() == n,
                forall|t: int| 0 <= t < i3 ==> #[trigger] node_values@[t] == input@[t],
                forall|t: int| i3 <= t < n ==> #[trigger] node_values@[t] == 0,
            decreases input@.len() - i3,
        {
            let x = input[i3];
            node_values.set(i3, x);
            i3 += 1;
        }
        node_values.set(self.input_nodes, 1);
        proof {
            assert forall|t: int| 0 <= t < n implies #[trigger] node_values@[t] == node_base(
                gv,
                input@,
                t,
            ) by {}
        }
        // the ready queue: nodes with no pending contribution
        let mut q: Vec<usize> = Vec::new();
        let ghost done = Set::<int>::empty();
        let mut v0: usize = 0;
        while v0 < n
            invariant
                n == gv.nodes.len(),
                0 <= v0 <= n,
                in_deg@.len() == n,
                forall|t: int| 0 <= t < n ==> #[trigger] in_deg@[t] == in_count(gv, t),
                forall|idx: int| 0 <= idx < q@.len() ==> (#[trigger] q@[idx] as int) < v0,
                forall|i4: int, j4: int| 0 <= i4 < j4 < q@.len() ==> q@[i4] != q@[j4],
                forall|t: usize|
                    #![trigger q@.contains(t)]
                    (t as int) < n ==> (q@.contains(t) <==> ((t as int) < v0 && in_deg@[
                        t as int] == 0)),
            decreases n - v0,
        {
            if in_deg[v0] == 0 {
                let ghost pre_q = q@;
                q.push(v0);
                proof {
                    assert forall|t: usize|
                        #![trigger q@.contains(t)]
                        (t as int) < n implies (q@.contains(t) <==> ((t as int) < v0 + 1
                        && in_deg@[t as int] == 0)) by {
                        if q@.contains(t) {
                            let idx = choose|idx: int| 0 <= idx < q@.len() && q@[idx] == t;
                            if idx < pre_q.len() {
                                assert(pre_q[idx] == t);
                                assert(pre_q.contains(t));
                            }
                        }
                        if (t as int) < v0 + 1 && in_deg@[t as int] == 0 {
                            if (t as int) < v0 {
                                assert(pre_q.contains(t));
                                let idx = choose|idx: int|
                                    0 <= idx < pre_q.len() && pre_q[idx] == t;
                                assert(q@[idx] == t);
                            } else {
                                assert(q@[q@.len() - 1] == t);
                            }
                        }
                    }
                }
            } else {
                proof {
                    assert forall|t: usize|
                        #![trigger q@.contains(t)]
                        (t as int) < n implies (q@.contains(t) <==> ((t as int) < v0 + 1
                        && in_deg@[t as int] == 0)) by {}
                }
            }
            v0 += 1;
        }
        proof {
            assert forall|t: int| 0 <= t < n implies #[trigger] in_deg@[t] == in_count(gv, t)
                - masked_cnt(gv, t, n as int, done) by {
                lemma_masked_empty(gv, input@, t, n as int);
            }
            assert forall|t: int|
                0 <= t < n && #[trigger] in_deg@[t] != 0 implies node_values@[t] == node_base(
                gv,
                input@,
                t,
            ) + masked_sum(gv, input@, t, n as int, done) by {
                lemma_masked_empty(gv, input@, t, n as int);
            }
            assert forall|t: int|
                0 <= t < n && #[trigger] in_deg@[t] == 0 implies node_values@[t] == eval_value(
                gv,
                input@,
                t,
            ) by {
                assert(in_count(gv, t) == 0);
            }
            vstd::set_lib::lemma_int_range(0, n as int);
        }
        // relax nodes from the queue; each node fires once
        while q.len() > 0
            invariant
                self.wf(),
                gv == self@,
                n == gv.nodes.len(),
                eval_safe(gv, input@),
                in_deg@.len() == n,
                node_values@.len() == n,
                done.finite(),
                forall|t: int| done.contains(t) ==> 0 <= t < n && in_deg@[t] == 0,
                forall|t: int|
                    0 <= t < n ==> #[trigger] in_deg@[t] == in_count(gv, t) - masked_cnt(
                        gv,
                        t,
                        n as int,
                        done,
                    ),
                forall|t: int|
                    0 <= t < n && #[trigger] in_deg@[t] == 0 ==> node_values@[t] == eval_value(
                        gv,
                        input@,
                        t,
                    ),
                forall|t: int|
                    0 <= t < n && #[trigger] in_deg@[t] != 0 ==> node_values@[t] == node_base(
                        gv,
                        input@,
                        t,
                    ) + masked_sum(gv, input@, t, n as int, done),
                forall|idx: int| 0 <= idx < q@.len() ==> (#[trigger] q@[idx] as int) < n,
                forall|i4: int, j4: int| 0 <= i4 < j4 < q@.len() ==> q@[i4] != q@[j4],
                forall|t: usize|
                    #![trigger q@.contains(t)]
                    (t as int) < n ==> (q@.contains(t) <==> (in_deg@[t as int] == 0
                        && !done.contains(t as int))),
            decreases n - done.len(),
        {
            let ghost pre_q = q@;
            let u = match q.pop() {
                Some(u) => u,
                None => {
                    proof {
                        assert(false);
                    }
                    0
                },
            };
            proof {
                assert(pre_q[pre_q.len() - 1] == u);
                assert(pre_q.contains(u));
                assert((u as int) < n && in_deg@[u as int] == 0 && !done.contains(u as int));
                assert forall|t: usize|
                    #![trigger q@.contains(t)]
                    (t as int) < n implies (q@.contains(t) <==> (in_deg@[t as int] == 0
                    && !done.contains(t as int) && t != u)) by {
                    if q@.contains(t) {
                        let idx = choose|idx: int| 0 <= idx < q@.len() && q@[idx] == t;
                        assert(pre_q[idx] == t);
                        assert(pre_q.contains(t));
                        assert(idx < pre_q.len() - 1);
                        assert(t != u);
                    }
                    if in_deg@[t as int] == 0 && !done.contains(t as int) && t != u {
                        assert(pre_q.contains(t));
                        let idx = choose|idx: int| 0 <= idx < pre_q.len() && pre_q[idx] == t;
                        assert(idx < pre_q.len() - 1);
                        assert(q@[idx] == t);
                    }
                }
            }
            let ghost row = gv.nodes[u as int].adj;
            proof {
                assert(row == self.nodes@[u as int].adj@);
            }
            let m = self.nodes[u].adj.len();
            let ghost u_val = eval_value(gv, input@, u as int);
            let mut j: usize = 0;
            while j < m
                invariant
                    self.wf(),
                    gv == self@,
                    n == gv.nodes.len(),
                    eval_safe(gv, input@),
                    0 <= j <= m,
                    (u as int) < n,
                    m == row.len(),
                    row == gv.nodes[u as int].adj,
                    in_deg@.len() == n,
                    node_values@.len() == n,
                    done.finite(),
                    !done.contains(u as int),
                    in_deg@[u as int] == 0,
                    node_values@[u as int] == u_val,
                    u_val == eval_value(gv, input@, u as int),
                    forall|t: int| done.contains(t) ==> 0 <= t < n && in_deg@[t] == 0,
                    forall|t: int|
                        0 <= t < n ==> #[trigger] in_deg@[t] == in_count(gv, t) - masked_cnt(
                            gv,
                            t,
                            n as int,
                            done,
                        ) - row_count_upto(row, t, j as int),
                    forall|t: int|
                        0 <= t < n && #[trigger] in_deg@[t] == 0 ==> node_values@[t] == eval_value(
                            gv,
                            input@,
                            t,
                        ),
                    forall|t: int|
                        0 <= t < n && #[trigger] in_deg@[t] != 0 ==> node_values@[t] == node_base(
                            gv,
                            input@,
                            t,
                        ) + masked_sum(gv, input@, t, n as int, done) + u_val * row_weight_upto(
                            row,
                            t,
                            j as int,
                        ),
                    forall|idx: int| 0 <= idx < q@.len() ==> (#[trigger] q@[idx] as int) < n,
                    forall|i4: int, j4: int| 0 <= i4 < j4 < q@.len() ==> q@[i4] != q@[j4],
                    forall|t: usize|
                        #![trigger q@.contains(t)]
                        (t as int) < n ==> (q@.contains(t) <==> (in_deg@[t as int] == 0
                            && !done.contains(t as int) && t != u)),
                decreases m - j,
            {
                let node_ref = &self.nodes[u];
                let c = node_ref.adj[j];
                proof {
                    assert(c == row[j as int]);
                }
                if c.active {
                    let t = c.to;
                    proof {
                        assert((t as int) < n && t != u);
                        // the single connection of this row into `t`
                        lemma_row_single(row, t as int, j as int);
                        // `t` still waits for this contribution
                        lemma_masked_insert(gv, input@, t as int, n as int, done, u as int);
                        lemma_masked_le(gv, t as int, n as int, done.insert(u as int));
                        assert(in_deg@[t as int] >= 1);
                        // magnitudes stay inside i64
                        lemma_abs_term(gv, input@, t as int, u as int, n as int);
                        assert(row_weight(row, t as int) == c.weight);
                        lemma_masked_abs(gv, input@, t as int, n as int, done);
                        assert(abs(node_base(gv, input@, t as int)) + abs_sum(
                            gv,
                            input@,
                            t as int,
                            n as int,
                        ) <= i64::MAX);
                    }
                    let contribution = node_values[u] * c.weight;
                    let old_val = node_values[t];
                    proof {
                        let s2 = done.insert(u as int);
                        lemma_masked_insert(gv, input@, t as int, n as int, done, u as int);
                        lemma_masked_abs(gv, input@, t as int, n as int, s2);
                        assert(masked_sum(gv, input@, t as int, n as int, s2) == masked_sum(
                            gv,
                            input@,
                            t as int,
                            n as int,
                            done,
                        ) + u_val * row_weight(row, t as int));
                        assert(old_val == node_base(gv, input@, t as int) + masked_sum(
                            gv,
                            input@,
                            t as int,
                            n as int,
                            done,
                        ));
                    }
                    let new_val = old_val + contribution;
                    node_values.set(t, new_val);
                    let dt = in_deg[t];
                    in_deg.set(t, dt - 1);
                    if dt - 1 == 0 {
                        // every contribution has arrived: fire the activation
                        proof {
                            let s2 = done.insert(u as int);
                            lemma_row_count_mono(row, t as int, j as int + 1, m as int);
                            lemma_masked_le(gv, t as int, n as int, s2);
                            assert(in_count(gv, t as int) == masked_cnt(gv, t as int, n as int, s2));
                            lemma_masked_complete(gv, input@, t as int, n as int, s2);
                            assert(new_val == node_base(gv, input@, t as int) + full_sum(
                                gv,
                                input@,
                                t as int,
                                n as int,
                            ));
                            lemma_row_count_at(row, t as int, j as int);
                            lemma_masked_le(gv, t as int, n as int, done);
                            assert(in_count(gv, t as int) > 0);
                            lemma_eval_value_unfold(gv, input@, t as int);
                        }
                        let activated = self.nodes[t].evaluate(new_val);
                        node_values.set(t, activated);
                        let ghost pre_push = q@;
                        q.push(t);
                        proof {
                            assert(node_values@[t as int] == eval_value(gv, input@, t as int));
                            assert forall|t2: usize|
                                #![trigger q@.contains(t2)]
                                (t2 as int) < n implies (q@.contains(t2) <==> (in_deg@[t2 as int]
                                == 0 && !done.contains(t2 as int) && t2 != u)) by {
                                if q@.contains(t2) {
                                    let idx = choose|idx: int|
                                        0 <= idx < q@.len() && q@[idx] == t2;
                                    if idx < pre_push.len() {
                                        assert(pre_push[idx] == t2);
                                        assert(pre_push.contains(t2));
                                    }
                                }
                                if in_deg@[t2 as int] == 0 && !done.contains(t2 as int) && t2
                                    != u {
                                    if t2 == t {
                                        assert(q@[q@.len() - 1] == t2);
                                    } else {
                                        assert(pre_push.contains(t2));
                                        let idx = choose|idx: int|
                                            0 <= idx < pre_push.len() && pre_push[idx] == t2;
                                        assert(q@[idx] == t2);
                                    }
                                }
                            }
                            assert forall|i4: int, j4: int|
                                0 <= i4 < j4 < q@.len() implies q@[i4] != q@[j4] by {
                                if j4 < q@.len() - 1 {
                                    assert(q@[i4] == pre_push[i4] && q@[j4] == pre_push[j4]);
                                } else {
                                    assert(q@[j4] == t);
                                    assert(q@[i4] == pre_push[i4]);
                                    assert(!pre_push.contains(t));
                                    assert(pre_push.contains(pre_push[i4]));
                                }
                            }
                        }
                    }
                } else {
                    proof {
                        assert forall|t: int|
                            0 <= t < n implies row_count_upto(row, t, j as int + 1)
                            == row_count_upto(row, t, j as int) && row_weight_upto(
                            row,
                            t,
                            j as int + 1,
                        ) == row_weight_upto(row, t, j as int) by {}
                    }
                }
                j += 1;
            }
            proof {
                let s2 = done.insert(u as int);
                assert(s2.len() == done.len() + 1);
                assert forall|t: int|
                    0 <= t < n implies #[trigger] in_deg@[t] == in_count(gv, t) - masked_cnt(
                    gv,
                    t,
                    n as int,
                    s2,
                ) by {
                    lemma_masked_insert(gv, input@, t, n as int, done, u as int);
                    assert(row_count_upto(row, t, m as int) == row_count(row, t));
                }
                assert forall|t: int|
                    0 <= t < n && #[trigger] in_deg@[t] != 0 implies node_values@[t] == node_base(
                    gv,
                    input@,
                    t,
                ) + masked_sum(gv, input@, t, n as int, s2) by {
                    lemma_masked_insert(gv, input@, t, n as int, done, u as int);
                    assert(row_weight_upto(row, t, m as int) == row_weight(row, t));
                }
                done = s2;
                vstd::set_lib::lemma_int_range(0, n as int);
                assert(done.subset_of(set_int_range(0, n as int)));
                vstd::set_lib::lemma_len_subset(done, set_int_range(0, n as int));
            }
        }
        // an empty queue means every node has fired: otherwise the
        // shallowest waiting node would still have an unrelaxed predecessor,
        // which contradicts the rank witness
        proof {
            let r = choose|r: Seq<int>| cycle::valid_rank(gv, r);
            let waiting = Set::new(|t: int| 0 <= t < n && in_deg@[t] != 0);
            vstd::set_lib::lemma_int_range(0, n as int);
            vstd::set_lib::lemma_len_subset(waiting, set_int_range(0, n as int));
            if exists|t: int| 0 <= t < n && #[trigger] in_deg@[t] != 0 {
                let t0 = choose|t: int| 0 <= t < n && #[trigger] in_deg@[t] != 0;
                assert(waiting.contains(t0));
                lemma_member_len(waiting, t0);
                lemma_min_rank(waiting, r);
                let v = choose|v: int|
                    waiting.contains(v) && forall|w: int| waiting.contains(w) ==> r[v]
                        <= #[trigger] r[w];
                lemma_masked_le(gv, v, n as int, done);
                assert(masked_cnt(gv, v, n as int, done) < in_count_upto(gv, v, n as int));
                lemma_masked_short(gv, v, n as int, done);
                let (u2, e) = choose|u2: int, e: int|
                    0 <= u2 < n && !done.contains(u2) && 0 <= e < gv.nodes[u2].adj.len() && (
                    #[trigger] gv.nodes[u2].adj[e]).active && gv.nodes[u2].adj[e].to == v;
                assert(in_deg@[u2] != 0) by {
                    if in_deg@[u2] == 0 {
                        assert(q@.contains(u2 as usize));
                    }
                }
                assert(waiting.contains(u2));
                assert(r[u2] < r[v]);
                assert(false);
            }
            assert forall|t: int| 0 <= t < n implies #[trigger] node_values@[t] == eval_value(
                gv,
                input@,
                t,
            ) by {
                assert(in_deg@[t] == 0);
            }
        }
        // collect the output slice
        let mut out: Vec<i64> = Vec::new();
        let mut k: usize = 0;
        while k < self.output_nodes
            invariant
                self.wf(),
                gv == self@,
                n == gv.nodes.len(),
                0 <= k <= self.output_nodes,
                node_values@.len() == n,
                out@.len() == k,
                forall|t: int|
                    0 <= t < n ==> #[trigger] node_values@[t] == eval_value(gv, input@, t),
                forall|k2: int|
                    0 <= k2 < k ==> #[trigger] out@[k2] == eval_value(
                        gv,
                        input@,
                        self.input_nodes + 1 + k2,
                    ),
            decreases self.output_nodes - k,
        {
            out.push(node_values[self.input_nodes + 1 + k]);
            k += 1;
        }
        out
    }
}

} // verus!
