use vstd::prelude::*;
use crate::genome::{Genome, GenomeV, NodeV};
use crate::node::Connection;

verus! {

/// The connection used when probing whether one extra edge would close a
/// cycle; only its target and its active flag matter to acyclicity.
pub open spec fn probe_conn(b: usize) -> Connection {
    Connection { to: b, inno_number: 0, active: true, weight: 0 }
}

/// The graph the cycle check walks: the genome itself, or the genome with
/// one speculative active edge `ea -> eb`.
pub open spec fn probe_view(g: GenomeV, ea: usize, eb: usize, has_extra: bool) -> GenomeV {
    if has_extra {
        g.with_conn(ea as int, probe_conn(eb))
    } else {
        g
    }
}

/// Some active connection runs from node `a` to node `b`.
pub open spec fn edge_between(p: GenomeV, a: int, b: int) -> bool {
    0 <= a < p.nodes.len() && exists|j: int|
        0 <= j < p.nodes[a].adj.len() && (#[trigger] p.nodes[a].adj[j]).active && p.nodes[
            a].adj[j].to == b
}

/// Depth-first-search bookkeeping: every black (fully explored) node points
/// only at black nodes that finished strictly earlier.
pub open spec fn black_ok(p: GenomeV, color: Seq<u8>, fin: Seq<int>) -> bool {
    forall|i: int, j: int|
        0 <= i < p.nodes.len() && color[i] == 2 && 0 <= j < p.nodes[i].adj.len() && (
        #[trigger] p.nodes[i].adj[j]).active ==> color[p.nodes[i].adj[j].to as int] == 2 && fin[
            p.nodes[i].adj[j].to as int] < fin[i]
}

/// The gray nodes form exactly the current search path: consecutive entries
/// are linked by an active connection.
pub open spec fn chain_ok(p: GenomeV, color: Seq<u8>, chain: Seq<int>) -> bool {
    &&& forall|i: int| 0 <= i < chain.len() ==> 0 <= #[trigger] chain[i] < p.nodes.len()
    &&& forall|u: int| 0 <= u < color.len() ==> ((color[u] == 1) <==> chain.contains(u))
    &&& forall|i: int| 0 <= i < chain.len() - 1 ==> edge_between(p, #[trigger] chain[i], chain[i + 1])
}

/// Number of white (unvisited) entries.
pub open spec fn count_white(color: Seq<u8>) -> int
    decreases color.len(),
{
    if color.len() == 0 {
        0
    } else {
        count_white(color.drop_last()) + if color.last() == 0 {
            1int
        } else {
            0int
        }
    }
}

pub proof fn lemma_count_white_le(c1: Seq<u8>, c2: Seq<u8>)
    requires
        c1.len() == c2.len(),
        forall|u: int| 0 <= u < c2.len() && #[trigger] c2[u] == 0 ==> c1[u] == 0,
    ensures
        count_white(c2) <= count_white(c1),
    decreases c1.len(),
{
    if c1.len() > 0 {
        assert(c1.drop_last().len() == c2.drop_last().len());
        assert forall|u: int|
            0 <= u < c2.drop_last().len() && #[trigger] c2.drop_last()[u] == 0 implies c1
            .drop_last()[u] == 0 by {
            assert(c2[u] == c2.drop_last()[u]);
            assert(c1[u] == c1.drop_last()[u]);
        }
        lemma_count_white_le(c1.drop_last(), c2.drop_last());
    }
}

pub proof fn lemma_count_white_update(color: Seq<u8>, i: int, x: u8)
    requires
        0 <= i < color.len(),
    ensures
        count_white(color.update(i, x)) == count_white(color) + (if x == 0 {
            1int
        } else {
            0int
        }) - (if color[i] == 0 {
            1int
        } else {
            0int
        }),
    decreases color.len(),
{
    let upd = color.update(i, x);
    if i == color.len() - 1 {
        assert(upd.drop_last() =~= color.drop_last());
    } else {
        assert(upd.drop_last() =~= color.drop_last().update(i, x));
        lemma_count_white_update(color.drop_last(), i, x);
    }
}

/// Any valid rank strictly increases along the gray search path.
pub proof fn lemma_chain_rank(p: GenomeV, chain: Seq<int>, r: Seq<int>, i: int, j: int)
    requires
        valid_rank(p, r),
        forall|k: int| 0 <= k < chain.len() ==> 0 <= #[trigger] chain[k] < p.nodes.len(),
        forall|k: int|
            0 <= k < chain.len() - 1 ==> edge_between(p, #[trigger] chain[k], chain[k + 1]),
        0 <= i < j < chain.len(),
    ensures
        r[chain[i]] < r[chain[j]],
    decreases j - i,
{
    let a = chain[j - 1];
    let b = chain[j];
    assert(edge_between(p, a, b));
    let e = choose|e: int|
        0 <= e < p.nodes[a].adj.len() && (#[trigger] p.nodes[a].adj[e]).active && p.nodes[
            a].adj[e].to == b;
    assert(r[a] < r[b]);
    if i < j - 1 {
        lemma_chain_rank(p, chain, r, i, j - 1);
    }
}

/// A witness that the active connections form a directed acyclic graph: a
/// rank for every node that strictly increases along every active connection.
pub open spec fn valid_rank(g: GenomeV, r: Seq<int>) -> bool {
    &&& r.len() == g.nodes.len()
    &&& forall|i: int, j: int|
        0 <= i < g.nodes.len() && 0 <= j < g.nodes[i].adj.len() && (#[trigger] g.nodes[i].adj[j]).active
            ==> r[i] < r[g.nodes[i].adj[j].to as int]
}

/// The relation induced by active connections has no directed cycle.
pub open spec fn acyclic(g: GenomeV) -> bool {
    exists|r: Seq<int>| valid_rank(g, r)
}

/// Deactivating connections (or touching only their weights or innovation
/// numbers) cannot create a cycle: any rank witness keeps working for a
/// genome whose active connections are a pointwise subset.
pub proof fn lemma_rank_for_weaker(g1: GenomeV, g2: GenomeV, r: Seq<int>)
    requires
        valid_rank(g1, r),
        g2.nodes.len() == g1.nodes.len(),
        forall|i: int|
            0 <= i < g2.nodes.len() ==> (#[trigger] g2.nodes[i]).adj.len() == g1.nodes[i].adj.len(),
        forall|i: int, j: int|
            0 <= i < g2.nodes.len() && 0 <= j < g2.nodes[i].adj.len() ==> {
                let c2 = #[trigger] g2.nodes[i].adj[j];
                let c1 = g1.nodes[i].adj[j];
                c2.to == c1.to && (c2.active ==> c1.active)
            },
    ensures
        valid_rank(g2, r),
{
    assert forall|i: int, j: int|
        0 <= i < g2.nodes.len() && 0 <= j < g2.nodes[i].adj.len() && (#[trigger] g2.nodes[i].adj[j]).active implies r[i] < r[g2.nodes[i].adj[j].to as int] by {
        assert(g1.nodes[i].adj[j].active);
    }
}

/// An isolated new node extends any rank witness.
pub proof fn lemma_rank_push_node(g: GenomeV, global: usize, r: Seq<int>)
    requires
        valid_rank(g, r),
        forall|i: int, j: int|
            0 <= i < g.nodes.len() && 0 <= j < g.nodes[i].adj.len() ==> ((#[trigger] g.nodes[
                i].adj[j]).to as int) < g.nodes.len(),
    ensures
        valid_rank(g.with_node(global), r.push(0)),
{
    let g2 = g.with_node(global);
    let r2 = r.push(0);
    assert forall|i: int, j: int|
        0 <= i < g2.nodes.len() && 0 <= j < g2.nodes[i].adj.len() && (#[trigger] g2.nodes[i].adj[j]).active implies r2[i] < r2[g2.nodes[i].adj[j].to as int] by {
        assert(i < g.nodes.len());
        assert(g2.nodes[i] == g.nodes[i]);
        assert(g.nodes[i].adj[j].active);
        assert((g.nodes[i].adj[j].to as int) < g.nodes.len());
        assert(r[i] < r[g.nodes[i].adj[j].to as int]);
        assert(r2[i] == r[i]);
        assert(r2[g.nodes[i].adj[j].to as int] == r[g.nodes[i].adj[j].to as int]);
    }
}

/// Appending an inactive connection keeps any rank witness valid.
pub proof fn lemma_rank_add_inactive(g: GenomeV, from: int, c: Connection, r: Seq<int>)
    requires
        valid_rank(g, r),
        0 <= from < g.nodes.len(),
        !c.active,
    ensures
        valid_rank(g.with_conn(from, c), r),
{
    let g2 = g.with_conn(from, c);
    assert forall|i: int, j: int|
        0 <= i < g2.nodes.len() && 0 <= j < g2.nodes[i].adj.len() && (#[trigger] g2.nodes[i].adj[j]).active implies r[i] < r[g2.nodes[i].adj[j].to as int] by {
        if i == from {
            if j < g.nodes[i].adj.len() {
                assert(g2.nodes[i].adj[j] == g.nodes[i].adj[j]);
            } else {
                assert(g2.nodes[i].adj[j] == c);
            }
        } else {
            assert(g2.nodes[i] == g.nodes[i]);
        }
    }
}

pub proof fn lemma_count_white_bounds(color: Seq<u8>)
    ensures
        0 <= count_white(color) <= color.len(),
    decreases color.len(),
{
    if color.len() > 0 {
        lemma_count_white_bounds(color.drop_last());
    }
}

impl Genome {
    /// One depth-first visit of the white node `v` over the probe graph.
    /// Returns whether a cycle was found, with the updated finish ranks.
    #[verifier::rlimit(60)]
    fn dfs_visit(
        &self,
        ea: usize,
        eb: usize,
        has_extra: bool,
        v: usize,
        color: &mut Vec<u8>,
        Ghost(fin0): Ghost<Seq<int>>,
        Ghost(cnt0): Ghost<int>,
        Ghost(chain): Ghost<Seq<int>>,
    ) -> (res: (bool, Ghost<Seq<int>>, Ghost<int>))
        requires
            self.wf_graph(),
            has_extra ==> ea < self.num_nodes && eb < self.num_nodes,
            old(color)@.len() == self@.n(),
            forall|u: int| 0 <= u < old(color)@.len() ==> #[trigger] old(color)@[u] <= 2,
            (v as int) < self@.n(),
            old(color)@[v as int] == 0,
            fin0.len() == self@.n(),
            black_ok(probe_view(self@, ea, eb, has_extra), old(color)@, fin0),
            forall|u: int|
                0 <= u < old(color)@.len() && #[trigger] old(color)@[u] == 2 ==> fin0[u] < cnt0,
            chain_ok(probe_view(self@, ea, eb, has_extra), old(color)@, chain),
            chain.len() > 0 ==> edge_between(
                probe_view(self@, ea, eb, has_extra),
                chain.last(),
                v as int,
            ),
        ensures
            ({
                let p = probe_view(self@, ea, eb, has_extra);
                let (found, fin, cnt) = res;
                &&& final(color)@.len() == old(color)@.len()
                &&& forall|u: int| 0 <= u < final(color)@.len() ==> #[trigger] final(color)@[u] <= 2
                &&& forall|u: int|
                    0 <= u < final(color)@.len() && #[trigger] final(color)@[u] == 0 ==> old(color)@[u] == 0
                &&& fin@.len() == self@.n()
                &&& cnt@ >= cnt0
                &&& (found ==> !acyclic(p))
                &&& (!found ==> {
                    &&& forall|u: int|
                        0 <= u < final(color)@.len() ==> ((#[trigger] final(color)@[u] == 1) <==> (
                        old(color)@[u] == 1))
                    &&& forall|u: int|
                        0 <= u < final(color)@.len() && #[trigger] old(color)@[u] == 2 ==> final(color)@[u] == 2 && fin@[u] == fin0[u]
                    &&& final(color)@[v as int] == 2
                    &&& black_ok(p, final(color)@, fin@)
                    &&& forall|u: int|
                        0 <= u < final(color)@.len() && #[trigger] final(color)@[u] == 2 ==> fin@[u]
                            < cnt@
                })
            }),
        decreases count_white(old(color)@),
    {
        let ghost p = probe_view(self@, ea, eb, has_extra);
        let ghost entry_color = color@;
        proof {
            lemma_count_white_update(entry_color, v as int, 1);
        }
        color.set(v, 1);
        let ghost chain2 = chain.push(v as int);
        proof {
            assert forall|u: int|
                0 <= u < color@.len() implies ((color@[u] == 1) <==> chain2.contains(u)) by {
                if u == v as int {
                    assert(chain2[chain2.len() - 1] == u);
                    assert(chain2.contains(u));
                } else {
                    if chain.contains(u) {
                        let k = choose|k: int| 0 <= k < chain.len() && chain[k] == u;
                        assert(chain2[k] == u);
                    }
                    if chain2.contains(u) {
                        let k = choose|k: int| 0 <= k < chain2.len() && chain2[k] == u;
                        assert(k < chain.len());
                        assert(chain[k] == u);
                    }
                    assert((color@[u] == 1) <==> (entry_color[u] == 1));
                }
            }
            assert forall|i: int|
                0 <= i < chain2.len() - 1 implies edge_between(p, #[trigger] chain2[i], chain2[i
                + 1]) by {
                if i < chain.len() - 1 {
                    assert(chain2[i] == chain[i] && chain2[i + 1] == chain[i + 1]);
                    assert(edge_between(p, chain[i], chain[i + 1]));
                } else {
                    assert(chain2[i] == chain.last() && chain2[i + 1] == v as int);
                }
            }
            assert(chain_ok(p, color@, chain2));
        }
        let adj_len = self.nodes[v].adj.len();
        proof {
            crate::genome::lemma_total_len_lower(self@.nodes, self@.n(), v as int);
        }
        let deg = if has_extra && v == ea {
            adj_len + 1
        } else {
            adj_len
        };
        let ghost mut fin_cur = fin0;
        let ghost mut cnt_cur = cnt0;
        let mut j: usize = 0;
        proof {
            assert(p.nodes[v as int].adj.len() == deg);
            assert forall|k: int| 0 <= k < adj_len implies #[trigger] p.nodes[v as int].adj[k]
                == self@.nodes[v as int].adj[k] by {}
        }
        while j < deg
            invariant
                self.wf_graph(),
                has_extra ==> ea < self.num_nodes && eb < self.num_nodes,
                p == probe_view(self@, ea, eb, has_extra),
                (v as int) < self@.n(),
                adj_len == self@.nodes[v as int].adj.len(),
                deg == p.nodes[v as int].adj.len(),
                deg == adj_len + (if has_extra && v == ea {
                    1int
                } else {
                    0int
                }),
                0 <= j <= deg,
                color@.len() == self@.n(),
                forall|u: int| 0 <= u < color@.len() ==> #[trigger] color@[u] <= 2,
                color@[v as int] == 1,
                entry_color == old(color)@,
                entry_color[v as int] == 0,
                entry_color.len() == color@.len(),
                forall|u: int|
                    0 <= u < color@.len() ==> ((#[trigger] color@[u] == 1) <==> (entry_color[u]
                        == 1 || u == v as int)),
                forall|u: int|
                    0 <= u < color@.len() && #[trigger] entry_color[u] == 2 ==> color@[u] == 2
                        && fin_cur[u] == fin0[u],
                forall|u: int| 0 <= u < color@.len() && #[trigger] color@[u] == 0 ==> entry_color[u] == 0,
                count_white(color@) <= count_white(entry_color) - 1,
                fin_cur.len() == self@.n(),
                cnt_cur >= cnt0,
                black_ok(p, color@, fin_cur),
                forall|u: int|
                    0 <= u < color@.len() && #[trigger] color@[u] == 2 ==> fin_cur[u] < cnt_cur,
                chain_ok(p, color@, chain2),
                chain2 == chain.push(v as int),
                forall|k: int|
                    0 <= k < j && (#[trigger] p.nodes[v as int].adj[k]).active ==> color@[p.nodes[
                        v as int].adj[k].to as int] == 2,
                forall|k: int|
                    0 <= k < deg ==> ((#[trigger] p.nodes[v as int].adj[k]).to as int) < self@.n(),
            decreases deg - j,
        {
            let (w, w_active) = if j < adj_len {
                let c = self.nodes[v].adj[j];
                proof {
                    assert(p.nodes[v as int].adj[j as int] == self@.nodes[v as int].adj[j as int]);
                }
                (c.to, c.active)
            } else {
                proof {
                    assert(p.nodes[v as int].adj[j as int] == probe_conn(eb));
                }
                (eb, true)
            };
            proof {
                assert(p.nodes[v as int].adj[j as int].to == w);
                assert(p.nodes[v as int].adj[j as int].active == w_active);
            }
            if w_active {
                let c = color[w];
                if c == 1 {
                    // a back edge into the gray path closes a cycle: no rank
                    // can order the path and this edge at once
                    proof {
                        assert(chain2.contains(w as int));
                        let widx = choose|k: int|
                            0 <= k < chain2.len() && #[trigger] chain2[k] == w as int;
                        assert forall|r: Seq<int>| !valid_rank(p, r) by {
                            if valid_rank(p, r) {
                                assert(r[v as int] < r[w as int]);
                                if widx < chain2.len() - 1 {
                                    lemma_chain_rank(p, chain2, r, widx, chain2.len() - 1);
                                    assert(r[w as int] < r[v as int]);
                                } else {
                                    assert(chain2[widx] == v as int);
                                }
                            }
                        }
                        assert(!acyclic(p));
                    }
                    return (true, Ghost(fin_cur), Ghost(cnt_cur));
                }
                if c == 0 {
                    proof {
                        lemma_count_white_bounds(color@);
                    }
                    let (found, f2, c2) = self.dfs_visit(
                        ea,
                        eb,
                        has_extra,
                        w,
                        color,
                        Ghost(fin_cur),
                        Ghost(cnt_cur),
                        Ghost(chain2),
                    );
                    if found {
                        return (true, f2, c2);
                    }
                    proof {
                        fin_cur = f2@;
                        cnt_cur = c2@;
                        lemma_count_white_le(entry_color, color@);
                        assert(color@[v as int] == 1);
                        assert(count_white(color@) <= count_white(entry_color) - 1) by {
                            let mid = entry_color.update(v as int, 1);
                            lemma_count_white_update(entry_color, v as int, 1);
                            assert forall|u: int|
                                0 <= u < color@.len() && #[trigger] color@[u] == 0 implies mid[u]
                                == 0 by {
                                assert(entry_color[u] == 0);
                                assert(u != v as int);
                            }
                            lemma_count_white_le(mid, color@);
                        }
                    }
                }
            }
            j += 1;
        }
        proof {
            lemma_count_white_update(entry_color, v as int, 2);
            let mid = entry_color.update(v as int, 1);
            assert forall|u: int|
                0 <= u < color@.len() && #[trigger] color@[u] == 0 implies mid[u] == 0 by {
                assert(entry_color[u] == 0 && u != v as int);
            }
        }
        color.set(v, 2);
        proof {
            let pre_fin = fin_cur;
            fin_cur = fin_cur.update(v as int, cnt_cur);
            cnt_cur = cnt_cur + 1;
            // v's successors are black and finished earlier; no black node
            // points at v, so updating v's rank disturbs nothing
            assert forall|i: int, j2: int|
                0 <= i < p.nodes.len() && color@[i] == 2 && 0 <= j2 < p.nodes[i].adj.len() && (
                #[trigger] p.nodes[i].adj[j2]).active implies color@[p.nodes[i].adj[j2].to as int]
                == 2 && fin_cur[p.nodes[i].adj[j2].to as int] < fin_cur[i] by {
                let t = p.nodes[i].adj[j2].to as int;
                if i == v as int {
                    assert(color@[t] == 2);
                    assert(t != v as int) by {
                        if has_extra && v == ea && j2 == adj_len {
                            assert(p.nodes[i].adj[j2] == probe_conn(eb));
                        } else {
                            assert(p.nodes[i].adj[j2] == self@.nodes[i].adj[j2]);
                        }
                    }
                    assert(pre_fin[t] < cnt_cur - 1);
                } else {
                    assert(t != v as int);
                    assert(fin_cur[t] == pre_fin[t] && fin_cur[i] == pre_fin[i]);
                }
            }
            assert(black_ok(p, color@, fin_cur));
            // the gray path shrinks back to the caller's chain
            assert forall|u: int|
                0 <= u < color@.len() implies ((color@[u] == 1) <==> (entry_color[u] == 1)) by {
                if chain.contains(u) {
                    let k = choose|k: int| 0 <= k < chain.len() && chain[k] == u;
                    assert(chain2[k] == u);
                    assert(chain2.contains(u));
                }
            }
        }
        (false, Ghost(fin_cur), Ghost(cnt_cur))
    }

    /// Whether the genome — extended by the speculative active edge
    /// `ea -> eb` when `has_extra` holds — contains a directed cycle among
    /// its active connections.
    pub(crate) fn cycle_probe(&self, ea: usize, eb: usize, has_extra: bool) -> (r: bool)
        requires
            self.wf_graph(),
            has_extra ==> ea < self.num_nodes && eb < self.num_nodes,
        ensures
            r == !acyclic(probe_view(self@, ea, eb, has_extra)),
    {
        let ghost p = probe_view(self@, ea, eb, has_extra);
        let n = self.nodes.len();
        let mut color: Vec<u8> = Vec::new();
        let mut i: usize = 0;
        while i < n
            invariant
                0 <= i <= n,
                color@.len() == i,
                forall|u: int| 0 <= u < i ==> #[trigger] color@[u] == 0,
            decreases n - i,
        {
            color.push(0);
            i += 1;
        }
        let ghost mut fin = Seq::new(self@.n() as nat, |u: int| 0int);
        let ghost mut cnt = 0int;
        let mut v: usize = 0;
        proof {
            assert(p.nodes.len() == self@.n());
        }
        while v < n
            invariant
                self.wf_graph(),
                has_extra ==> ea < self.num_nodes && eb < self.num_nodes,
                p == probe_view(self@, ea, eb, has_extra),
                n == self@.n(),
                0 <= v <= n,
                color@.len() == n,
                forall|u: int| 0 <= u < n ==> #[trigger] color@[u] <= 2,
                forall|u: int| 0 <= u < n ==> #[trigger] color@[u] != 1,
                forall|u: int| 0 <= u < v ==> #[trigger] color@[u] == 2,
                fin.len() == self@.n(),
                black_ok(p, color@, fin),
                forall|u: int| 0 <= u < n && #[trigger] color@[u] == 2 ==> fin[u] < cnt,
            decreases n - v,
        {
            if color[v] == 0 {
                proof {
                    let empty_chain = Seq::<int>::empty();
                    assert forall|u: int|
                        0 <= u < color@.len() implies ((color@[u] == 1) <==> Seq::<int>::empty().contains(u)) by {
                        if Seq::<int>::empty().contains(u) {
                            let k = choose|k: int|
                                0 <= k < Seq::<int>::empty().len() && Seq::<int>::empty()[k] == u;
                        }
                    }
                    assert(chain_ok(p, color@, Seq::<int>::empty()));
                }
                let (found, f2, c2) = self.dfs_visit(
                    ea,
                    eb,
                    has_extra,
                    v,
                    &mut color,
                    Ghost(fin),
                    Ghost(cnt),
                    Ghost(Seq::<int>::empty()),
                );
                if found {
                    return true;
                }
                proof {
                    fin = f2@;
                    cnt = c2@;
                }
            }
            v += 1;
        }
        proof {
            let r = Seq::new(self@.n() as nat, |u: int| 0int - fin[u]);
            assert forall|i2: int, j2: int|
                0 <= i2 < p.nodes.len() && 0 <= j2 < p.nodes[i2].adj.len() && (#[trigger] p.nodes[
                i2].adj[j2]).active implies r[i2] < r[p.nodes[i2].adj[j2].to as int] by {
                assert(color@[i2] == 2);
                assert(fin[p.nodes[i2].adj[j2].to as int] < fin[i2]);
            }
            assert(valid_rank(p, r));
        }
        false
    }

    /// Whether a directed cycle exists among the active connections.
    pub fn check_cycle(&self) -> (r: bool)
        requires
            self.wf_graph(),
        ensures
            r == !acyclic(self@),
    {
        self.cycle_probe(0, 0, false)
    }
}

/// A rank witness for the genome extended by an active `from -> to`
/// connection also covers flipping any existing `from -> to` connection to
/// active: both graphs constrain the same pairs.
pub proof fn lemma_rank_enable(g: GenomeV, g2: GenomeV, from: int, to: usize, r: Seq<int>)
    requires
        0 <= from < g.nodes.len(),
        valid_rank(
            g.with_conn(
                from,
                Connection { to, inno_number: 0, active: true, weight: 0 },
            ),
            r,
        ),
        g2.nodes.len() == g.nodes.len(),
        forall|i: int|
            0 <= i < g2.nodes.len() ==> (#[trigger] g2.nodes[i]).adj.len() == g.nodes[i].adj.len(),
        forall|i: int, j: int|
            0 <= i < g2.nodes.len() && 0 <= j < g2.nodes[i].adj.len() ==> {
                let c2 = #[trigger] g2.nodes[i].adj[j];
                let c1 = g.nodes[i].adj[j];
                c2.to == c1.to && (c2.active ==> c1.active || (i == from && c2.to == to))
            },
    ensures
        valid_rank(g2, r),
{
    let probe = g.with_conn(from, Connection { to, inno_number: 0, active: true, weight: 0 });
    assert forall|i: int, j: int|
        0 <= i < g2.nodes.len() && 0 <= j < g2.nodes[i].adj.len() && (#[trigger] g2.nodes[i].adj[j]).active implies r[i] < r[g2.nodes[i].adj[j].to as int] by {
        if g.nodes[i].adj[j].active {
            if i == from {
                assert(probe.nodes[i].adj[j] == g.nodes[i].adj[j]);
            } else {
                assert(probe.nodes[i] == g.nodes[i]);
                assert(probe.nodes[i].adj[j].active);
            }
        } else {
            assert(i == from && g2.nodes[i].adj[j].to == to);
            let k = probe.nodes[from].adj.len() - 1;
            assert(probe.nodes[from].adj[k].active && probe.nodes[from].adj[k].to == to);
            assert(r[from] < r[to as int]);
        }
    }
}

} // verus!
