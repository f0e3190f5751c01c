use vstd::prelude::*;
use crate::activation::Activation;
use crate::cycle;
use crate::genome::{total_len, total_len_upto, Genome, GenomeV, CONN_CAP, WEIGHT_CAP};
use crate::node::Connection;
use crate::pairs::IdSet;

verus! {

/// One gene record: a connection keyed by the global ids of its endpoints and
/// its innovation number. The innovation-sorted gene list is the basis for
/// genome alignment in crossover and compatibility distance.
#[derive(Clone, Copy, PartialEq, Eq, Structural, Debug)]
pub struct GenomeInfo {
    pub from: usize,
    pub to: usize,
    pub innovation_number: usize,
    pub weight: i64,
    pub active: bool,
}

/// The gene record of the connection at row `i`, entry `j`.
pub open spec fn gene_at(g: GenomeV, i: int, j: int) -> GenomeInfo {
    GenomeInfo {
        from: g.nodes[i].global,
        to: g.nodes[g.nodes[i].adj[j].to as int].global,
        innovation_number: g.nodes[i].adj[j].inno_number,
        weight: g.nodes[i].adj[j].weight,
        active: g.nodes[i].adj[j].active,
    }
}

/// Whether some connection of the genome carries this gene record.
pub open spec fn has_gene(g: GenomeV, x: GenomeInfo) -> bool {
    exists|i: int, j: int|
        0 <= i < g.nodes.len() && 0 <= j < g.nodes[i].adj.len() && x == #[trigger] gene_at(g, i, j)
}

/// Strictly ascending innovation numbers.
pub open spec fn inno_sorted(s: Seq<GenomeInfo>) -> bool {
    forall|a: int, b: int|
        0 <= a < b < s.len() ==> (#[trigger] s[a]).innovation_number < (
        #[trigger] s[b]).innovation_number
}

/// Whether a gene list mentions the global id `x` at either endpoint.
pub open spec fn gene_refs(genes: Seq<GenomeInfo>, x: usize) -> bool {
    exists|k: int| 0 <= k < genes.len() && ((#[trigger] genes[k]).from == x || genes[k].to == x)
}

/// Whether the gene list mentions every base node id.
pub open spec fn covers_base(genes: Seq<GenomeInfo>, base: int) -> bool {
    forall|b: int| 0 <= b < base ==> #[trigger] gene_refs(genes, b as usize)
}

/// Sanity of a gene list: no self loops, capped weights, no repeated
/// innovation number and no repeated endpoint pair.
pub open spec fn genes_wf(genes: Seq<GenomeInfo>) -> bool {
    &&& forall|k: int|
        0 <= k < genes.len() ==> (#[trigger] genes[k]).from != genes[k].to && -WEIGHT_CAP <= genes[
            k].weight <= WEIGHT_CAP
    &&& forall|k1: int, k2: int|
        0 <= k1 < k2 < genes.len() ==> (#[trigger] genes[k1]).innovation_number != (
        #[trigger] genes[k2]).innovation_number
    &&& forall|k1: int, k2: int|
        0 <= k1 < k2 < genes.len() ==> !((#[trigger] genes[k1]).from == (
        #[trigger] genes[k2]).from && genes[k1].to == genes[k2].to)
}

/// The active genes admit a rank on global ids that increases along every
/// gene: rebuilding them cannot close a cycle.
pub open spec fn gene_rank_ok(genes: Seq<GenomeInfo>, r: Map<usize, int>) -> bool {
    forall|k: int|
        0 <= k < genes.len() && (#[trigger] genes[k]).active ==> r.dom().contains(genes[k].from)
            && r.dom().contains(genes[k].to) && r[genes[k].from] < r[genes[k].to]
}

pub open spec fn genes_acyclic(genes: Seq<GenomeInfo>) -> bool {
    exists|r: Map<usize, int>| gene_rank_ok(genes, r)
}

/// Number of active genes among the first `k`.
pub open spec fn genes_active_upto(genes: Seq<GenomeInfo>, k: int) -> int
    decreases k,
{
    if k <= 0 {
        0
    } else {
        genes_active_upto(genes, k - 1) + if genes[k - 1].active {
            1int
        } else {
            0int
        }
    }
}

/// Number of ids at least `base` among the first `h` entries.
pub open spec fn cnt_high(ids: Seq<usize>, h: int, base: int) -> int
    decreases h,
{
    if h <= 0 {
        0
    } else {
        cnt_high(ids, h - 1, base) + if ids[h - 1] >= base {
            1int
        } else {
            0int
        }
    }
}

/// The dense local id of a global id: its position in the sorted reference
/// set.
pub open spec fn rank_of(ids: Seq<usize>, x: usize) -> int {
    choose|i: int| 0 <= i < ids.len() && ids[i] == x
}

/// The connection a gene record becomes once its endpoints are remapped.
pub open spec fn conn_of(gene: GenomeInfo, idv: Seq<usize>) -> crate::node::Connection {
    crate::node::Connection {
        to: rank_of(idv, gene.to) as usize,
        inno_number: gene.innovation_number,
        active: gene.active,
        weight: gene.weight,
    }
}

pub proof fn lemma_cnt_high_bounds(ids: Seq<usize>, h: int, base: int)
    requires
        0 <= h <= ids.len(),
    ensures
        0 <= cnt_high(ids, h, base) <= h,
    decreases h,
{
    if h > 0 {
        lemma_cnt_high_bounds(ids, h - 1, base);
    }
}

/// In a strictly sorted id sequence each entry is at least its position.
pub proof fn lemma_sorted_ids_lower(ids: Seq<usize>, l: int)
    requires
        forall|i: int, j: int| 0 <= i < j < ids.len() ==> #[trigger] ids[i] < #[trigger] ids[j],
        0 <= l < ids.len(),
    ensures
        ids[l] >= l,
    decreases l,
{
    if l > 0 {
        lemma_sorted_ids_lower(ids, l - 1);
        assert(ids[l - 1] < ids[l]);
    }
}

/// Entries below `base` sit before position `base`, so the high entries of a
/// prefix are everything past the lows.
pub proof fn lemma_cnt_high_split(ids: Seq<usize>, h: int, base: int)
    requires
        forall|i: int, j: int| 0 <= i < j < ids.len() ==> #[trigger] ids[i] < #[trigger] ids[j],
        0 <= h <= ids.len(),
        base >= 0,
    ensures
        cnt_high(ids, h, base) >= h - base,
    decreases h,
{
    lemma_cnt_high_bounds(ids, h, base);
    if h > 0 {
        lemma_cnt_high_split(ids, h - 1, base);
        if (ids[h - 1] as int) < base {
            lemma_sorted_ids_lower(ids, h - 1);
            assert(h - 1 <= ids[h - 1] < base);
        }
    }
}

/// The canonical serialized form of a genome: the right length, strictly
/// innovation-sorted, sane, and set-equal to the genome's connections.
pub open spec fn is_flat(g: GenomeV, s: Seq<GenomeInfo>) -> bool {
    &&& s.len() == total_len(g)
    &&& inno_sorted(s)
    &&& genes_wf(s)
    &&& forall|k: int| 0 <= k < s.len() ==> has_gene(g, #[trigger] s[k])
    &&& forall|i: int, j: int|
        0 <= i < g.nodes.len() && 0 <= j < g.nodes[i].adj.len() ==> s.contains(
            #[trigger] gene_at(g, i, j),
        )
}

/// A gene at position `k` stems from a connection placed before row `i`,
/// entry `j` in row-major order.
pub open spec fn gene_from_before(g: GenomeV, x: GenomeInfo, i: int, j: int) -> bool {
    exists|i2: int, j2: int|
        0 <= i2 < g.nodes.len() && 0 <= j2 < g.nodes[i2].adj.len() && (i2 < i || (i2 == i && j2
            < j)) && x == #[trigger] gene_at(g, i2, j2)
}

impl Genome {
    /// Serializes the genome: one record per connection, keyed by global ids,
    /// sorted ascending by innovation number.
    pub fn flatten(&self) -> (r: Vec<GenomeInfo>)
        requires
            self.wf(),
        ensures
            r@.len() == total_len(self@),
            inno_sorted(r@),
            forall|i: int, j: int|
                0 <= i < self@.nodes.len() && 0 <= j < self@.nodes[i].adj.len() ==> r@.contains(
                    #[trigger] gene_at(self@, i, j),
                ),
            forall|k: int| 0 <= k < r@.len() ==> has_gene(self@, #[trigger] r@[k]),
            genes_wf(r@),
            is_flat(self@, r@),
    {
        let ghost gv = self@;
        let n = self.nodes.len();
        let mut genes: Vec<GenomeInfo> = Vec::new();
        let mut i: usize = 0;
        while i < n
            invariant
                self.wf(),
                gv == self@,
                n == gv.nodes.len(),
                0 <= i <= n,
                genes@.len() == total_len_upto(gv.nodes, i as int),
                forall|k: int|
                    0 <= k < genes@.len() ==> gene_from_before(gv, #[trigger] genes@[k], i as int, 0),
                forall|i2: int, j2: int|
                    0 <= i2 < i && 0 <= j2 < gv.nodes[i2].adj.len() ==> genes@.contains(
                        #[trigger] gene_at(gv, i2, j2),
                    ),
                forall|k1: int, k2: int|
                    0 <= k1 < k2 < genes@.len() ==> (#[trigger] genes@[k1]).innovation_number != (
                    #[trigger] genes@[k2]).innovation_number,
            decreases n - i,
        {
            let node_ref = &self.nodes[i];
            let ghost row = gv.nodes[i as int].adj;
            proof {
                assert(row == node_ref.adj@);
            }
            let m = node_ref.adj.len();
            let mut j: usize = 0;
            while j < m
                invariant
                    self.wf(),
                    gv == self@,
                    n == gv.nodes.len(),
                    0 <= i < n,
                    0 <= j <= m,
                    m == row.len(),
                    row == gv.nodes[i as int].adj,
                    row == node_ref.adj@,
                    node_ref.global_id == gv.nodes[i as int].global,
                    genes@.len() == total_len_upto(gv.nodes, i as int) + j,
                    forall|k: int|
                        0 <= k < genes@.len() ==> gene_from_before(
                            gv,
                            #[trigger] genes@[k],
                            i as int,
                            j as int,
                        ),
                    forall|i2: int, j2: int|
                        0 <= i2 < gv.nodes.len() && 0 <= j2 < gv.nodes[i2].adj.len() && (i2
                            < i as int || (i2 == i as int && j2 < j as int)) ==> genes@.contains(
                            #[trigger] gene_at(gv, i2, j2),
                        ),
                    forall|k1: int, k2: int|
                        0 <= k1 < k2 < genes@.len() ==> (
                        #[trigger] genes@[k1]).innovation_number != (
                        #[trigger] genes@[k2]).innovation_number,
                decreases m - j,
            {
                let c = node_ref.adj[j];
                let gene = GenomeInfo {
                    from: node_ref.global_id,
                    to: self.nodes[c.to].global_id,
                    innovation_number: c.inno_number,
                    weight: c.weight,
                    active: c.active,
                };
                let ghost pre = genes@;
                genes.push(gene);
                proof {
                    assert(c == row[j as int]);
                    assert(gv.nodes[i as int].global == self.nodes@[i as int].global_id);
                    assert((c.to as int) < gv.nodes.len());
                    assert(gv.nodes[c.to as int].global == self.nodes@[c.to as int].global_id);
                    assert(gene == gene_at(gv, i as int, j as int));
                    assert forall|k: int|
                        0 <= k < genes@.len() implies gene_from_before(
                        gv,
                        #[trigger] genes@[k],
                        i as int,
                        j as int + 1,
                    ) by {
                        if k < pre.len() {
                            assert(genes@[k] == pre[k]);
                            let (i2, j2) = choose|i2: int, j2: int|
                                0 <= i2 < gv.nodes.len() && 0 <= j2 < gv.nodes[i2].adj.len() && (
                                i2 < i as int || (i2 == i as int && j2 < j as int)) && pre[k]
                                    == #[trigger] gene_at(gv, i2, j2);
                            assert(genes@[k] == gene_at(gv, i2, j2));
                        } else {
                            assert(genes@[k] == gene_at(gv, i as int, j as int));
                        }
                    }
                    assert forall|i2: int, j2: int|
                        0 <= i2 < gv.nodes.len() && 0 <= j2 < gv.nodes[i2].adj.len() && (i2
                            < i as int || (i2 == i as int && j2 < j as int + 1)) implies genes@
                        .contains(#[trigger] gene_at(gv, i2, j2)) by {
                        if i2 == i as int && j2 == j as int {
                            assert(genes@[genes@.len() - 1] == gene_at(gv, i2, j2));
                        } else {
                            assert(pre.contains(gene_at(gv, i2, j2)));
                            let k = choose|k: int|
                                0 <= k < pre.len() && pre[k] == gene_at(gv, i2, j2);
                            assert(genes@[k] == gene_at(gv, i2, j2));
                        }
                    }
                    assert forall|k1: int, k2: int|
                        0 <= k1 < k2 < genes@.len() implies (
                    #[trigger] genes@[k1]).innovation_number != (
                    #[trigger] genes@[k2]).innovation_number by {
                        if k2 == genes@.len() - 1 {
                            let (i2, j2) = choose|i2: int, j2: int|
                                0 <= i2 < gv.nodes.len() && 0 <= j2 < gv.nodes[i2].adj.len() && (
                                i2 < i as int || (i2 == i as int && j2 < j as int)) && pre[k1]
                                    == #[trigger] gene_at(gv, i2, j2);
                            assert(genes@[k1].innovation_number == gv.nodes[
                            i2].adj[j2].inno_number);
                            assert(genes@[k2].innovation_number == gv.nodes[
                            i as int].adj[j as int].inno_number);
                        } else {
                            assert(genes@[k1] == pre[k1] && genes@[k2] == pre[k2]);
                        }
                    }
                }
                j += 1;
            }
            i += 1;
        }
        // order ascending by innovation number
        let len = genes.len();
        let ghost collected = genes@;
        let mut ii: usize = 1;
        while ii < len
            invariant
                1 <= ii <= len || len == 0,
                genes@.len() == len,
                forall|k: int| 0 <= k < len ==> has_gene(gv, #[trigger] genes@[k]),
                forall|i2: int, j2: int|
                    0 <= i2 < gv.nodes.len() && 0 <= j2 < gv.nodes[i2].adj.len() ==> genes@
                        .contains(#[trigger] gene_at(gv, i2, j2)),
                forall|k1: int, k2: int|
                    0 <= k1 < k2 < len ==> (#[trigger] genes@[k1]).innovation_number != (
                    #[trigger] genes@[k2]).innovation_number,
                forall|a: int, b: int|
                    0 <= a < b < ii ==> (#[trigger] genes@[a]).innovation_number <= (
                    #[trigger] genes@[b]).innovation_number,
            decreases len - ii,
        {
            let mut jj: usize = ii;
            while jj > 0 && genes[jj - 1].innovation_number > genes[jj].innovation_number
                invariant
                    0 <= jj <= ii < len,
                    genes@.len() == len,
                    forall|k: int| 0 <= k < len ==> has_gene(gv, #[trigger] genes@[k]),
                    forall|i2: int, j2: int|
                        0 <= i2 < gv.nodes.len() && 0 <= j2 < gv.nodes[i2].adj.len() ==> genes@
                            .contains(#[trigger] gene_at(gv, i2, j2)),
                    forall|k1: int, k2: int|
                        0 <= k1 < k2 < len ==> (#[trigger] genes@[k1]).innovation_number != (
                        #[trigger] genes@[k2]).innovation_number,
                    forall|a: int, b: int|
                        0 <= a < b <= ii && b != jj ==> (#[trigger] genes@[a]).innovation_number
                            <= (#[trigger] genes@[b]).innovation_number,
                    forall|a: int|
                        jj < a <= ii ==> (genes@[jj as int]).innovation_number <= (
                        #[trigger] genes@[a]).innovation_number,
                decreases jj,
            {
                let ghost pre = genes@;
                let lo = genes[jj - 1];
                let hi = genes[jj];
                genes.set(jj - 1, hi);
                genes.set(jj, lo);
                proof {
                    assert forall|k: int| 0 <= k < len implies #[trigger] genes@[k] == (if k == jj
                        - 1 {
                        pre[jj as int]
                    } else if k == jj {
                        pre[jj - 1]
                    } else {
                        pre[k]
                    }) by {}
                    assert forall|k: int| 0 <= k < len implies has_gene(
                        gv,
                        #[trigger] genes@[k],
                    ) by {
                        if k == jj - 1 {
                            assert(genes@[k] == pre[jj as int]);
                        } else if k == jj {
                            assert(genes@[k] == pre[jj - 1]);
                        }
                    }
                    assert forall|i2: int, j2: int|
                        0 <= i2 < gv.nodes.len() && 0 <= j2 < gv.nodes[i2].adj.len() implies genes@
                        .contains(#[trigger] gene_at(gv, i2, j2)) by {
                        let k = choose|k: int|
                            0 <= k < pre.len() && pre[k] == gene_at(gv, i2, j2);
                        if k == jj - 1 {
                            assert(genes@[jj as int] == gene_at(gv, i2, j2));
                        } else if k == jj {
                            assert(genes@[jj - 1] == gene_at(gv, i2, j2));
                        } else {
                            assert(genes@[k] == gene_at(gv, i2, j2));
                        }
                    }
                }
                jj -= 1;
            }
            proof {
                assert forall|a: int, b: int|
                    0 <= a < b <= ii implies (#[trigger] genes@[a]).innovation_number <= (
                #[trigger] genes@[b]).innovation_number by {
                    if b == jj {
                        if a < jj - 1 {
                            assert(genes@[a].innovation_number <= genes@[jj
                                - 1].innovation_number);
                        }
                    }
                }
            }
            ii += 1;
        }
        proof {
            assert forall|a: int, b: int|
                0 <= a < b < genes@.len() implies (#[trigger] genes@[a]).innovation_number < (
            #[trigger] genes@[b]).innovation_number by {}
            assert forall|k1: int, k2: int|
                0 <= k1 < k2 < genes@.len() implies !((#[trigger] genes@[k1]).from == (
            #[trigger] genes@[k2]).from && genes@[k1].to == genes@[k2].to) by {
                let (i1, j1) = choose|i1: int, j1: int|
                    0 <= i1 < gv.nodes.len() && 0 <= j1 < gv.nodes[i1].adj.len() && genes@[k1]
                        == #[trigger] gene_at(gv, i1, j1);
                let (i2, j2) = choose|i2: int, j2: int|
                    0 <= i2 < gv.nodes.len() && 0 <= j2 < gv.nodes[i2].adj.len() && genes@[k2]
                        == #[trigger] gene_at(gv, i2, j2);
                if genes@[k1].from == genes@[k2].from && genes@[k1].to == genes@[k2].to {
                    assert(gv.nodes[i1].global == gv.nodes[i2].global);
                    assert(i1 == i2);
                    let t1 = gv.nodes[i1].adj[j1].to as int;
                    let t2 = gv.nodes[i2].adj[j2].to as int;
                    assert(gv.nodes[t1].global == gv.nodes[t2].global);
                    assert(t1 == t2);
                    assert(j1 != j2 ==> gv.nodes[i1].adj[j1].to != gv.nodes[i1].adj[j2].to);
                    assert(j1 == j2);
                }
            }
            assert forall|k: int|
                0 <= k < genes@.len() implies (#[trigger] genes@[k]).from != genes@[k].to
                && -WEIGHT_CAP <= genes@[k].weight <= WEIGHT_CAP by {
                let (i1, j1) = choose|i1: int, j1: int|
                    0 <= i1 < gv.nodes.len() && 0 <= j1 < gv.nodes[i1].adj.len() && genes@[k]
                        == #[trigger] gene_at(gv, i1, j1);
                let t1 = gv.nodes[i1].adj[j1].to as int;
                assert(t1 != i1);
                assert(gv.nodes[i1].global != gv.nodes[t1].global);
            }
        }
        genes
    }

}

} // verus!
