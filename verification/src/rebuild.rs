use vstd::prelude::*;
use crate::activation::Activation;
use crate::cycle;
use crate::flatten::{
    covers_base, cnt_high, conn_of, gene_at, gene_rank_ok, gene_refs, genes_acyclic,
    genes_active_upto, genes_wf, has_gene, lemma_cnt_high_bounds, lemma_cnt_high_split,
    lemma_sorted_ids_lower, rank_of, GenomeInfo,
};
use crate::genome::{total_len, Genome, GenomeV, CONN_CAP};
use crate::node::Connection;
use crate::pairs::IdSet;

verus! {

impl Genome {
    /// Rebuilds a genome from gene records: the referenced global ids are
    /// remapped to dense local ids in sorted order, hidden ids get fresh
    /// nodes, and every record becomes a connection. When the records mention
    /// every base node — as any flattened genome whose base nodes all carry
    /// an edge does — the rebuilt genome carries exactly the given genes.
    pub fn un_flatten(
        genes: &Vec<GenomeInfo>,
        input_nodes: usize,
        output_nodes: usize,
        act: Activation,
    ) -> (r: Genome)
        requires
            2 * (input_nodes + output_nodes + 1) + 2 * genes@.len() <= usize::MAX,
            genes@.len() <= CONN_CAP,
            genes_wf(genes@),
            genes_acyclic(genes@),
        ensures
            r.wf(),
            r.input_nodes == input_nodes,
            r.output_nodes == output_nodes,
            r.act == act,
            total_len(r@) == genes@.len(),
            r.num_connections == genes_active_upto(genes@, genes@.len() as int),
            forall|k: int| 0 <= k < genes@.len() ==> has_gene(r@, #[trigger] genes@[k]),
            forall|i: int, j: int|
                #![trigger r@.nodes[i].adj[j]]
                0 <= i < r@.nodes.len() && 0 <= j < r@.nodes[i].adj.len() ==> genes@.contains(
                    gene_at(r@, i, j),
                ),
    {
        let base_n = input_nodes + output_nodes + 1;
        let ids = collect_ids(genes, base_n);
        let ghost idv = ids.items@;
        let mut base = Genome::new(input_nodes, output_nodes, act);
        proof {
            crate::genome::lemma_total_upto_empty(base@.nodes, base@.n());
        }
        add_hidden(&mut base, &ids);
        proof {
            lemma_cnt_high_split(idv, idv.len() as int, base_n as int);
            lemma_ids_unique(idv);
            assert forall|x: usize|
                gene_refs(genes@, x) implies 0 <= #[trigger] rank_of(idv, x) < idv.len() && idv[
                rank_of(idv, x)] == x by {
                assert(ids.spec_contains(x));
                let p = choose|p: int| 0 <= p < idv.len() && #[trigger] idv[p] == x;
                assert(rank_of(idv, x) == p);
            }
        }
        add_genes(&mut base, genes, &ids);
        proof {
            assert forall|x: usize|
                gene_refs(genes@, x) || (x as int) < base_n implies id_present(idv, x) by {
                assert(ids.spec_contains(x));
                let p = choose|p: int|
                    0 <= p < ids.items@.len() && #[trigger] ids.items@[p] == x;
                assert(idv[p] == x);
            }
            lemma_unflatten_coverage(base, genes@, idv, input_nodes, output_nodes);
        }
        base
    }

    /// A full structural round trip through the gene records, so that
    /// identity-bearing local ids never leak between independent genomes.
    pub fn clone(&self) -> (r: Genome)
        requires
            self.wf(),
            2 * (self.input_nodes + self.output_nodes + 1) + 2 * total_len(self@) <= usize::MAX,
            total_len(self@) <= CONN_CAP,
        ensures
            r.wf(),
            r.input_nodes == self.input_nodes,
            r.output_nodes == self.output_nodes,
            r.act == self.act,
            total_len(r@) == total_len(self@),
            forall|x: GenomeInfo| #[trigger] has_gene(r@, x) <==> has_gene(self@, x),
    {
        let genes = self.flatten();
        proof {
            lemma_flat_genes_acyclic(*self, genes@);
        }
        let r = Genome::un_flatten(&genes, self.input_nodes, self.output_nodes, self.act);
        proof {
            assert forall|x: GenomeInfo| #[trigger] has_gene(r@, x) <==> has_gene(self@, x) by {
                if has_gene(r@, x) {
                    let (i, j) = choose|i: int, j: int|
                        0 <= i < r@.nodes.len() && 0 <= j < r@.nodes[i].adj.len() && x
                            == #[trigger] gene_at(r@, i, j);
                    assert(genes@.contains(gene_at(r@, i, j)));
                    let k = choose|k: int| 0 <= k < genes@.len() && genes@[k] == x;
                    assert(has_gene(self@, genes@[k]));
                }
                if has_gene(self@, x) {
                    let (i, j) = choose|i: int, j: int|
                        0 <= i < self@.nodes.len() && 0 <= j < self@.nodes[i].adj.len() && x
                            == #[trigger] gene_at(self@, i, j);
                    assert(genes@.contains(gene_at(self@, i, j)));
                    let k = choose|k: int| 0 <= k < genes@.len() && genes@[k] == x;
                    assert(has_gene(r@, genes@[k]));
                }
            }
        }
        r
    }

}

/// Genes that mirror active connections of a well-formed acyclic genome,
/// endpoint globals included, admit a rank on global ids.
pub proof fn lemma_flat_genes_acyclic(g: Genome, genes: Seq<GenomeInfo>)
    requires
        g.wf(),
        forall|k: int| 0 <= k < genes.len() ==> has_gene(g@, #[trigger] genes[k]),
    ensures
        genes_acyclic(genes),
{
    let gv = g@;
    let rk = choose|rk: Seq<int>| cycle::valid_rank(gv, rk);
    let rmap = Map::<usize, int>::new(
        |x: usize| exists|l: int| 0 <= l < gv.nodes.len() && (#[trigger] gv.nodes[l]).global == x,
        |x: usize|
            {
                let l = choose|l: int|
                    0 <= l < gv.nodes.len() && (#[trigger] gv.nodes[l]).global == x;
                rk[l]
            },
    );
    assert forall|k: int|
        0 <= k < genes.len() && (#[trigger] genes[k]).active implies rmap.dom().contains(
        genes[k].from,
    ) && rmap.dom().contains(genes[k].to) && rmap[genes[k].from] < rmap[genes[k].to] by {
        let (i, j) = choose|i: int, j: int|
            0 <= i < gv.nodes.len() && 0 <= j < gv.nodes[i].adj.len() && genes[k]
                == #[trigger] gene_at(gv, i, j);
        let t = gv.nodes[i].adj[j].to as int;
        assert(gv.nodes[i].global == genes[k].from);
        assert(gv.nodes[t].global == genes[k].to);
        assert(rmap.dom().contains(genes[k].from));
        assert(rmap.dom().contains(genes[k].to));
        let li = choose|l: int|
            0 <= l < gv.nodes.len() && (#[trigger] gv.nodes[l]).global == genes[k].from;
        let lt = choose|l: int|
            0 <= l < gv.nodes.len() && (#[trigger] gv.nodes[l]).global == genes[k].to;
        assert(li == i) by {
            if li != i {
                assert(gv.nodes[li].global != gv.nodes[i].global);
            }
        }
        assert(lt == t) by {
            if lt != t {
                assert(gv.nodes[lt].global != gv.nodes[t].global);
            }
        }
        assert(gv.nodes[i].adj[j].active);
        assert(rk[i] < rk[t]);
    }
    assert(gene_rank_ok(genes, rmap));
}

/// Gene records whose active entries each mirror an active connection of a
/// well-formed acyclic genome (by endpoint global ids) admit a rank on global
/// ids, whatever their other payload.
pub proof fn lemma_active_pairs_acyclic(g: Genome, genes: Seq<GenomeInfo>)
    requires
        g.wf(),
        forall|k: int|
            0 <= k < genes.len() && (#[trigger] genes[k]).active ==> exists|i: int, j: int|
                0 <= i < g@.nodes.len() && 0 <= j < g@.nodes[i].adj.len() && (#[trigger] g@.nodes[
                    i].adj[j]).active && g@.nodes[i].global == genes[k].from && g@.nodes[g@.nodes[
                    i].adj[j].to as int].global == genes[k].to,
    ensures
        genes_acyclic(genes),
{
    let gv = g@;
    let rk = choose|rk: Seq<int>| cycle::valid_rank(gv, rk);
    let rmap = Map::<usize, int>::new(
        |x: usize| exists|l: int| 0 <= l < gv.nodes.len() && (#[trigger] gv.nodes[l]).global == x,
        |x: usize|
            {
                let l = choose|l: int|
                    0 <= l < gv.nodes.len() && (#[trigger] gv.nodes[l]).global == x;
                rk[l]
            },
    );
    assert forall|k: int|
        0 <= k < genes.len() && (#[trigger] genes[k]).active implies rmap.dom().contains(
        genes[k].from,
    ) && rmap.dom().contains(genes[k].to) && rmap[genes[k].from] < rmap[genes[k].to] by {
        let (i, j) = choose|i: int, j: int|
            0 <= i < gv.nodes.len() && 0 <= j < gv.nodes[i].adj.len() && (#[trigger] gv.nodes[
                i].adj[j]).active && gv.nodes[i].global == genes[k].from && gv.nodes[gv.nodes[
                i].adj[j].to as int].global == genes[k].to;
        let t = gv.nodes[i].adj[j].to as int;
        assert(rmap.dom().contains(genes[k].from));
        assert(rmap.dom().contains(genes[k].to));
        let li = choose|l: int|
            0 <= l < gv.nodes.len() && (#[trigger] gv.nodes[l]).global == genes[k].from;
        let lt = choose|l: int|
            0 <= l < gv.nodes.len() && (#[trigger] gv.nodes[l]).global == genes[k].to;
        assert(li == i) by {
            if li != i {
                assert(gv.nodes[li].global != gv.nodes[i].global);
            }
        }
        assert(lt == t) by {
            if lt != t {
                assert(gv.nodes[lt].global != gv.nodes[t].global);
            }
        }
        assert(rk[i] < rk[t]);
    }
    assert(gene_rank_ok(genes, rmap));
}

/// Every count below the high total is reached by some prefix ending in a
/// high id.
pub proof fn lemma_cnt_high_pick(idv: Seq<usize>, h: int, base: int, c: int)
    requires
        0 <= h <= idv.len(),
        0 <= c < cnt_high(idv, h, base),
    ensures
        exists|h2: int|
            #![trigger cnt_high(idv, h2, base)]
            0 <= h2 < h && idv[h2] >= base && cnt_high(idv, h2, base) == c,
    decreases h,
{
    lemma_cnt_high_bounds(idv, h, base);
    if h > 0 {
        if cnt_high(idv, h - 1, base) > c {
            lemma_cnt_high_pick(idv, h - 1, base, c);
        } else {
            assert(idv[h - 1] >= base);
            assert(cnt_high(idv, h - 1, base) == c);
        }
    }
}

/// In a strictly sorted sequence equal entries share the position.
pub proof fn lemma_ids_unique(idv: Seq<usize>)
    requires
        forall|i: int, j: int| 0 <= i < j < idv.len() ==> #[trigger] idv[i] < #[trigger] idv[j],
    ensures
        forall|a: int, b: int|
            0 <= a < idv.len() && 0 <= b < idv.len() && #[trigger] idv[a] == #[trigger] idv[b]
                ==> a == b,
{
    assert forall|a: int, b: int|
        0 <= a < idv.len() && 0 <= b < idv.len() && #[trigger] idv[a] == #[trigger] idv[b] implies a
        == b by {
        if a < b {
            assert(idv[a] < idv[b]);
        }
        if b < a {
            assert(idv[b] < idv[a]);
        }
    }
}

/// The sorted set of global ids the rebuilt genome needs a node for: every
/// base id, plus every id a gene list refers to.
fn collect_ids(genes: &Vec<GenomeInfo>, base_n: usize) -> (ids: IdSet)
    ensures
        ids.sorted(),
        ids.items@.len() <= base_n + 2 * genes@.len(),
        forall|x: usize|
            ids.spec_contains(x) <==> (gene_refs(genes@, x) || (x as int) < base_n),
{
    let glen = genes.len();
    let mut ids = IdSet::new();
    let mut b: usize = 0;
    while b < base_n
        invariant
            0 <= b <= base_n,
            ids.sorted(),
            ids.items@.len() <= b,
            forall|x: usize| ids.spec_contains(x) <==> (x as int) < b,
        decreases base_n - b,
    {
        ids.insert(b);
        b += 1;
    }
    let mut k: usize = 0;
    while k < glen
        invariant
            0 <= k <= glen,
            glen == genes@.len(),
            ids.sorted(),
            ids.items@.len() <= base_n + 2 * k,
            forall|x: usize|
                ids.spec_contains(x) <==> ((x as int) < base_n || exists|k2: int|
                    0 <= k2 < k && ((#[trigger] genes@[k2]).from == x || genes@[k2].to == x)),
        decreases glen - k,
    {
        let g = genes[k];
        ids.insert(g.from);
        ids.insert(g.to);
        proof {
            assert forall|x: usize|
                ids.spec_contains(x) <==> ((x as int) < base_n || exists|k2: int|
                    0 <= k2 < k + 1 && ((#[trigger] genes@[k2]).from == x || genes@[k2].to
                        == x)) by {
                if ids.spec_contains(x) && !(x == g.from || x == g.to) && (x as int) >= base_n {
                    let k2 = choose|k2: int|
                        0 <= k2 < k && ((#[trigger] genes@[k2]).from == x || genes@[k2].to == x);
                }
                if x == g.from || x == g.to {
                    assert(genes@[k as int].from == x || genes@[k as int].to == x);
                }
            }
        }
        k += 1;
    }
    ids
}

/// Structure of a rebuilt genome after the hidden nodes went in: base ids at
/// their own slots, each high id on the node its dense position dictates.
pub open spec fn hidden_ok(base: Genome, idv: Seq<usize>, base_n: int) -> bool {
    &&& base.num_nodes == base_n + cnt_high(idv, idv.len() as int, base_n)
    &&& base@.nodes.len() == base.num_nodes
    &&& forall|h2: int|
        0 <= h2 < idv.len() && (#[trigger] idv[h2] as int) >= base_n ==> {
            let l = base_n + cnt_high(idv, h2, base_n);
            0 <= l < base@.nodes.len() && base@.nodes[l].global == idv[h2]
        }
}

/// Adds one hidden node per referenced id past the base range, in ascending
/// order of historical identity.
fn add_hidden(base: &mut Genome, ids: &IdSet)
    requires
        old(base).wf(),
        ids.sorted(),
        old(base).num_nodes == old(base).input_nodes + old(base).output_nodes + 1,
        old(base).num_connections == 0,
        total_len(old(base)@) == 0,
        forall|i: int|
            0 <= i < old(base)@.nodes.len() ==> (#[trigger] old(base)@.nodes[i]).adj.len() == 0,
        old(base).num_nodes + ids.items@.len() <= usize::MAX,
    ensures
        final(base).wf(),
        final(base).input_nodes == old(base).input_nodes,
        final(base).output_nodes == old(base).output_nodes,
        final(base).act == old(base).act,
        final(base).num_connections == 0,
        total_len(final(base)@) == 0,
        hidden_ok(*final(base), ids.items@, old(base).num_nodes as int),
        forall|l: int|
            0 <= l < final(base)@.nodes.len() ==> (#[trigger] final(base)@.nodes[l]).adj.len()
                == 0,
{
    let ghost idv = ids.items@;
    let base_n = base.num_nodes;
    let ids_len = ids.len();
    let mut h: usize = 0;
    while h < ids_len
        invariant
            0 <= h <= ids_len,
            ids_len == idv.len(),
            idv == ids.items@,
            ids.sorted(),
            base_n as int + idv.len() <= usize::MAX,
            base.wf(),
            base.input_nodes == old(base).input_nodes,
            base.output_nodes == old(base).output_nodes,
            base.act == old(base).act,
            base.num_connections == 0,
            total_len(base@) == 0,
            base_n == old(base).num_nodes,
            base_n == base.input_nodes + base.output_nodes + 1,
            base.num_nodes == base_n + cnt_high(idv, h as int, base_n as int),
            forall|i: int|
                0 <= i < base@.nodes.len() ==> (#[trigger] base@.nodes[i]).adj.len() == 0,
            forall|h2: int|
                0 <= h2 < h && (#[trigger] idv[h2] as int) >= base_n ==> {
                    let l = base_n + cnt_high(idv, h2, base_n as int);
                    0 <= l < base@.nodes.len() && base@.nodes[l].global == idv[h2]
                },
        decreases ids_len - h,
    {
        let x = ids.nth(h);
        if x >= base_n {
            proof {
                lemma_cnt_high_bounds(idv, h as int, base_n as int);
                assert forall|l: int|
                    0 <= l < base@.nodes.len() implies (#[trigger] base@.nodes[l]).global != x by {
                    if l < base_n {
                        assert(base@.nodes[l].global == l);
                    } else {
                        lemma_cnt_high_pick(idv, h as int, base_n as int, l - base_n);
                        let h2 = choose|h2: int|
                            #![trigger cnt_high(idv, h2, base_n as int)]
                            0 <= h2 < h && idv[h2] >= base_n && cnt_high(idv, h2, base_n as int)
                                == l - base_n;
                        assert(base@.nodes[l].global == idv[h2]);
                        assert(idv[h2] < idv[h as int]);
                    }
                }
            }
            let ghost pre = base@;
            let _ = base.add_node(x);
            proof {
                assert forall|h2: int|
                    0 <= h2 < h + 1 && (#[trigger] idv[h2] as int) >= base_n implies {
                    let l = base_n + cnt_high(idv, h2, base_n as int);
                    0 <= l < base@.nodes.len() && base@.nodes[l].global == idv[h2]
                } by {
                    lemma_cnt_high_bounds(idv, h2, base_n as int);
                    if h2 < h as int {
                        let l = base_n + cnt_high(idv, h2, base_n as int);
                        assert(l < pre.nodes.len());
                        assert(base@.nodes[l] == pre.nodes[l]);
                    }
                }
                crate::genome::lemma_total_upto_push(
                    pre.nodes,
                    base@.nodes[base@.nodes.len() - 1],
                    pre.nodes.len() as int,
                );
                assert(base@.nodes =~= pre.nodes.push(base@.nodes[base@.nodes.len() - 1]));
                assert(total_len(base@) == 0);
            }
        }
        h += 1;
    }
}

/// The connection at row `i`, entry `j` is one of the first `k2` genes,
/// remapped.
pub open spec fn placed_gene(
    bv: GenomeV,
    genes: Seq<GenomeInfo>,
    idv: Seq<usize>,
    k2: int,
    i: int,
    j: int,
) -> bool {
    exists|k3: int|
        0 <= k3 < k2 && i == #[trigger] rank_of(idv, genes[k3].from) && bv.nodes[i].adj[j]
            == conn_of(genes[k3], idv)
}

/// Each connection of the rebuilt genome is one remapped gene.
pub open spec fn conns_to_genes(
    bv: GenomeV,
    genes: Seq<GenomeInfo>,
    idv: Seq<usize>,
    k2: int,
) -> bool {
    forall|i: int, j: int|
        0 <= i < bv.nodes.len() && 0 <= j < bv.nodes[i].adj.len() ==> #[trigger] placed_gene(
            bv,
            genes,
            idv,
            k2,
            i,
            j,
        )
}

/// Gene `k3` sits somewhere in the rebuilt genome, at its remapped place.
pub open spec fn gene_placed(bv: GenomeV, genes: Seq<GenomeInfo>, idv: Seq<usize>, k3: int) -> bool {
    exists|i: int, j: int|
        #![trigger bv.nodes[i].adj[j]]
        0 <= i < bv.nodes.len() && 0 <= j < bv.nodes[i].adj.len() && i == rank_of(
            idv,
            genes[k3].from,
        ) && bv.nodes[i].adj[j] == conn_of(genes[k3], idv)
}

/// Each processed gene sits at its remapped place.
pub open spec fn genes_to_conns(
    bv: GenomeV,
    genes: Seq<GenomeInfo>,
    idv: Seq<usize>,
    k2: int,
) -> bool {
    forall|k3: int| 0 <= k3 < k2 ==> #[trigger] gene_placed(bv, genes, idv, k3)
}

/// Ranks resolve every referenced id inside the id table.
pub open spec fn ranks_ok(genes: Seq<GenomeInfo>, idv: Seq<usize>) -> bool {
    forall|x: usize|
        gene_refs(genes, x) ==> 0 <= #[trigger] rank_of(idv, x) < idv.len() && idv[rank_of(
            idv,
            x,
        )] == x
}

/// The speculative edge for one gene keeps the rebuilt graph cycle-free: the
/// gene rank pulled back through the id table orders every connection.
#[verifier::rlimit(100)]
#[verifier::spinoff_prover]
proof fn lemma_unflatten_probe(
    bv: GenomeV,
    genes: Seq<GenomeInfo>,
    idv: Seq<usize>,
    k2: int,
    u: int,
    v: usize,
)
    requires
        0 <= k2 < genes.len(),
        genes[k2].active,
        genes_acyclic(genes),
        ranks_ok(genes, idv),
        conns_to_genes(bv, genes, idv, k2),
        idv.len() <= bv.nodes.len(),
        bv.nodes.len() <= usize::MAX,
        u == rank_of(idv, genes[k2].from),
        v as int == rank_of(idv, genes[k2].to),
        gene_refs(genes, genes[k2].from),
        gene_refs(genes, genes[k2].to),
    ensures
        cycle::acyclic(
            bv.with_conn(
                u,
                Connection {
                    to: v,
                    inno_number: genes[k2].innovation_number,
                    active: true,
                    weight: genes[k2].weight,
                },
            ),
        ),
{
    let rmap = choose|r: Map<usize, int>| gene_rank_ok(genes, r);
    let s = Seq::new(
        bv.nodes.len() as nat,
        |l: int|
            if 0 <= l < idv.len() && rmap.dom().contains(idv[l]) {
                rmap[idv[l]]
            } else {
                0int
            },
    );
    let gene = genes[k2];
    let probe = bv.with_conn(
        u,
        Connection { to: v, inno_number: gene.innovation_number, active: true, weight: gene.weight },
    );
    assert forall|i: int, j: int|
        0 <= i < probe.nodes.len() && 0 <= j < probe.nodes[i].adj.len() && (#[trigger] probe.nodes[
    i].adj[j]).active implies s[i] < s[probe.nodes[i].adj[j].to as int] by {
        if i == u && j == bv.nodes[u].adj.len() {
            assert(probe.nodes[i].adj[j].to == v);
            assert(rmap.dom().contains(gene.from) && rmap.dom().contains(gene.to) && rmap[gene.from]
                < rmap[gene.to]);
            assert(idv[u] == gene.from);
            assert(idv[v as int] == gene.to);
            assert(s[u] == rmap[gene.from]);
            assert(s[v as int] == rmap[gene.to]);
        } else {
            assert(probe.nodes[i].adj[j] == bv.nodes[i].adj[j]) by {
                if i != u {
                    assert(probe.nodes[i] == bv.nodes[i]);
                }
            }
            assert(placed_gene(bv, genes, idv, k2, i, j));
            let k3 = choose|k3: int|
                0 <= k3 < k2 && i == #[trigger] rank_of(idv, genes[k3].from) && bv.nodes[i].adj[j]
                    == conn_of(genes[k3], idv);
            assert(genes[k3].active);
            assert(rmap.dom().contains(genes[k3].from) && rmap.dom().contains(genes[k3].to)
                && rmap[genes[k3].from] < rmap[genes[k3].to]);
            assert(gene_refs(genes, genes[k3].from)) by {
                assert(genes[k3].from == genes[k3].from || genes[k3].to == genes[k3].from);
            }
            assert(gene_refs(genes, genes[k3].to)) by {
                assert(genes[k3].from == genes[k3].to || genes[k3].to == genes[k3].to);
            }
            assert(idv[i] == genes[k3].from);
            assert(s[i] == rmap[genes[k3].from]);
            assert(bv.nodes[i].adj[j] == conn_of(genes[k3], idv));
            assert(bv.nodes[i].adj[j].to == rank_of(idv, genes[k3].to) as usize);
            assert(0 <= rank_of(idv, genes[k3].to) < idv.len());
            assert(bv.nodes[i].adj[j].to as int == rank_of(idv, genes[k3].to));
            assert(probe.nodes[i].adj[j].to == bv.nodes[i].adj[j].to);
            assert(probe.nodes[i].adj[j].to as int == rank_of(idv, genes[k3].to));
            assert(idv[probe.nodes[i].adj[j].to as int] == genes[k3].to);
            assert(s[probe.nodes[i].adj[j].to as int] == rmap[genes[k3].to]);
        }
    }
    assert(cycle::valid_rank(probe, s));
}

/// One appended connection extends both correspondence directions by one
/// gene.
#[verifier::rlimit(100)]
#[verifier::spinoff_prover]
proof fn lemma_add_gene_step(
    prev: GenomeV,
    cur: GenomeV,
    genes: Seq<GenomeInfo>,
    idv: Seq<usize>,
    k2: int,
    u: int,
)
    requires
        0 <= k2 < genes.len(),
        0 <= u < prev.nodes.len(),
        cur.nodes.len() == prev.nodes.len(),
        u == rank_of(idv, genes[k2].from),
        cur.nodes[u].adj == prev.nodes[u].adj.push(conn_of(genes[k2], idv)),
        forall|i: int| 0 <= i < prev.nodes.len() && i != u ==> #[trigger] cur.nodes[i] == prev.nodes[i],
        conns_to_genes(prev, genes, idv, k2),
        genes_to_conns(prev, genes, idv, k2),
    ensures
        conns_to_genes(cur, genes, idv, k2 + 1),
        genes_to_conns(cur, genes, idv, k2 + 1),
{
    assert forall|i: int, j: int|
        0 <= i < cur.nodes.len() && 0 <= j < cur.nodes[i].adj.len() implies #[trigger] placed_gene(
        cur,
        genes,
        idv,
        k2 + 1,
        i,
        j,
    ) by {
        if i == u && j == prev.nodes[u].adj.len() {
            assert(cur.nodes[i].adj[j] == conn_of(genes[k2], idv));
            assert(i == rank_of(idv, genes[k2].from));
        } else {
            assert(cur.nodes[i].adj[j] == prev.nodes[i].adj[j]) by {
                if i != u {
                    assert(cur.nodes[i] == prev.nodes[i]);
                }
            }
            assert(0 <= i < prev.nodes.len() && 0 <= j < prev.nodes[i].adj.len());
            assert(placed_gene(prev, genes, idv, k2, i, j));
            let k3 = choose|k3: int|
                0 <= k3 < k2 && i == #[trigger] rank_of(idv, genes[k3].from) && prev.nodes[
            i].adj[j] == conn_of(genes[k3], idv);
        }
    }
    assert forall|k3: int| 0 <= k3 < k2 + 1 implies #[trigger] gene_placed(
        cur,
        genes,
        idv,
        k3,
    ) by {
        if k3 < k2 {
            assert(gene_placed(prev, genes, idv, k3));
            let (i, j) = choose|i: int, j: int|
                #![trigger prev.nodes[i].adj[j]]
                0 <= i < prev.nodes.len() && 0 <= j < prev.nodes[i].adj.len() && i == rank_of(
                    idv,
                    genes[k3].from,
                ) && prev.nodes[i].adj[j] == conn_of(genes[k3], idv);
            assert(cur.nodes[i].adj[j] == prev.nodes[i].adj[j]) by {
                if i != u {
                    assert(cur.nodes[i] == prev.nodes[i]);
                }
            }
        } else {
            let i = u;
            let j = prev.nodes[u].adj.len() as int;
            assert(cur.nodes[i].adj[j] == conn_of(genes[k3], idv));
            assert(i == rank_of(idv, genes[k3].from));
        }
    }
}

/// Adds one connection per gene record, endpoints remapped through the sorted
/// id table.
#[verifier::rlimit(100)]
#[verifier::spinoff_prover]
fn add_genes(base: &mut Genome, genes: &Vec<GenomeInfo>, ids: &IdSet)
    requires
        old(base).wf(),
        ids.sorted(),
        genes@.len() <= CONN_CAP,
        genes_wf(genes@),
        genes_acyclic(genes@),
        ranks_ok(genes@, ids.items@),
        forall|x: usize| gene_refs(genes@, x) ==> ids.spec_contains(x),
        ids.items@.len() <= old(base).num_nodes,
        old(base).num_connections == 0,
        total_len(old(base)@) == 0,
        forall|i: int|
            0 <= i < old(base)@.nodes.len() ==> (#[trigger] old(base)@.nodes[i]).adj.len() == 0,
    ensures
        final(base).wf(),
        final(base).input_nodes == old(base).input_nodes,
        final(base).output_nodes == old(base).output_nodes,
        final(base).act == old(base).act,
        final(base).num_nodes == old(base).num_nodes,
        final(base).num_connections == genes_active_upto(genes@, genes@.len() as int),
        total_len(final(base)@) == genes@.len(),
        conns_to_genes(final(base)@, genes@, ids.items@, genes@.len() as int),
        genes_to_conns(final(base)@, genes@, ids.items@, genes@.len() as int),
        forall|l: int|
            0 <= l < final(base)@.nodes.len() ==> (#[trigger] final(base)@.nodes[l]).global == old(
                base)@.nodes[l].global,
{
    let ghost idv = ids.items@;
    let glen = genes.len();
    proof {
        assert forall|i: int, j: int|
            0 <= i < base@.nodes.len() && 0 <= j < base@.nodes[i].adj.len()
                implies #[trigger] placed_gene(base@, genes@, idv, 0, i, j) by {
            assert(base@.nodes[i].adj.len() == 0);
        }
        assert(conns_to_genes(base@, genes@, idv, 0));
        assert(genes_to_conns(base@, genes@, idv, 0));
    }
    let mut k2: usize = 0;
    while k2 < glen
        invariant
            0 <= k2 <= glen,
            glen == genes@.len(),
            glen <= CONN_CAP,
            idv == ids.items@,
            ids.sorted(),
            genes_wf(genes@),
            genes_acyclic(genes@),
            ranks_ok(genes@, idv),
            forall|x: usize| gene_refs(genes@, x) ==> ids.spec_contains(x),
            old(base).wf(),
            old(base)@.nodes.len() == old(base).num_nodes,
            base.wf(),
            base.input_nodes == old(base).input_nodes,
            base.output_nodes == old(base).output_nodes,
            base.act == old(base).act,
            base.num_nodes == old(base).num_nodes,
            base@.nodes.len() == base.num_nodes,
            idv.len() <= base.num_nodes,
            base.num_connections == genes_active_upto(genes@, k2 as int),
            total_len(base@) == k2,
            forall|l: int|
                0 <= l < base@.nodes.len() ==> (#[trigger] base@.nodes[l]).global == old(
                    base)@.nodes[l].global,
            conns_to_genes(base@, genes@, idv, k2 as int),
            genes_to_conns(base@, genes@, idv, k2 as int),
        decreases glen - k2,
    {
        let gene = genes[k2];
        proof {
            assert(genes@[k2 as int].from == gene.from || genes@[k2 as int].to == gene.from);
            assert(gene_refs(genes@, gene.from));
            assert(gene_refs(genes@, gene.to));
        }
        let u = match ids.rank(gene.from) {
            Some(u) => u,
            None => {
                proof {
                    assert(ids.spec_contains(gene.from));
                    assert(false);
                }
                0
            },
        };
        let v = match ids.rank(gene.to) {
            Some(v) => v,
            None => {
                proof {
                    assert(ids.spec_contains(gene.to));
                    assert(false);
                }
                0
            },
        };
        proof {
            lemma_ids_unique(idv);
            assert(u as int == rank_of(idv, gene.from)) by {
                assert(idv[u as int] == gene.from);
                assert(idv[rank_of(idv, gene.from)] == gene.from);
            }
            assert(v as int == rank_of(idv, gene.to)) by {
                assert(idv[v as int] == gene.to);
                assert(idv[rank_of(idv, gene.to)] == gene.to);
            }
            assert(u != v);
            assert forall|j: int|
                0 <= j < base@.nodes[u as int].adj.len() implies (#[trigger] base@.nodes[
            u as int].adj[j]).to != v by {
                assert(placed_gene(base@, genes@, idv, k2 as int, u as int, j));
                let k3 = choose|k3: int|
                    0 <= k3 < k2 && u as int == #[trigger] rank_of(idv, genes@[k3].from) && base@
                        .nodes[u as int].adj[j] == conn_of(genes@[k3], idv);
                assert(gene_refs(genes@, genes@[k3].from)) by {
                    assert(genes@[k3].from == genes@[k3].from || genes@[k3].to == genes@[k3].from);
                }
                assert(idv[rank_of(idv, genes@[k3].from)] == genes@[k3].from);
                assert(genes@[k3].from == gene.from);
                if base@.nodes[u as int].adj[j].to == v {
                    assert(rank_of(idv, genes@[k3].to) == v as int);
                    assert(gene_refs(genes@, genes@[k3].to)) by {
                        assert(genes@[k3].from == genes@[k3].to || genes@[k3].to == genes@[k3].to);
                    }
                    assert(idv[rank_of(idv, genes@[k3].to)] == genes@[k3].to);
                    assert(genes@[k3].to == gene.to);
                }
            }
            assert(!crate::node::Node::spec_edge_exists(base@.nodes[u as int].adj, v));
            assert forall|i: int, j: int|
                0 <= i < base@.n() && 0 <= j < base@.nodes[i].adj.len() implies (
            #[trigger] base@.nodes[i].adj[j]).inno_number != gene.innovation_number by {
                assert(placed_gene(base@, genes@, idv, k2 as int, i, j));
                let k3 = choose|k3: int|
                    0 <= k3 < k2 && i == #[trigger] rank_of(idv, genes@[k3].from) && base@.nodes[
                    i].adj[j] == conn_of(genes@[k3], idv);
            }
            assert(base@.fresh_inno(gene.innovation_number));
            if gene.active {
                lemma_unflatten_probe(base@, genes@, idv, k2 as int, u as int, v);
            }
        }
        let ghost pre = base@;
        let ghost prev_g = *base;
        base.add_edge(u, v, gene.innovation_number, gene.weight, gene.active);
        proof {
            crate::genome::lemma_total_len_upto_update(
                pre.nodes,
                u as int,
                base@.nodes[u as int],
                pre.nodes.len() as int,
            );
            assert(base@.nodes =~= pre.nodes.update(u as int, base@.nodes[u as int]));
            assert(total_len(base@) == total_len(prev_g@) + 1);
            assert(base@.nodes[u as int].adj == pre.nodes[u as int].adj.push(
                conn_of(genes@[k2 as int], idv),
            ));
            assert forall|i: int|
                0 <= i < pre.nodes.len() && i != u as int implies #[trigger] base@.nodes[i]
                == prev_g@.nodes[i] by {}
            lemma_add_gene_step(prev_g@, base@, genes@, idv, k2 as int, u as int);
            assert forall|l: int|
                0 <= l < base@.nodes.len() implies (#[trigger] base@.nodes[l]).global
                == pre.nodes[l].global by {
                if l != u as int {
                    assert(base@.nodes[l] == pre.nodes[l]);
                }
            }
        }
        k2 += 1;
    }
}

/// When the gene records cover every base id, the rebuilt genome carries
/// exactly those genes.
#[verifier::rlimit(100)]
#[verifier::spinoff_prover]
proof fn lemma_unflatten_coverage(
    b: Genome,
    genes: Seq<GenomeInfo>,
    idv: Seq<usize>,
    input_nodes: usize,
    output_nodes: usize,
)
    requires
        b.wf(),
        b.input_nodes == input_nodes,
        b.output_nodes == output_nodes,
        forall|i: int, j: int| 0 <= i < j < idv.len() ==> #[trigger] idv[i] < #[trigger] idv[j],
        ranks_ok(genes, idv),
        conns_to_genes(b@, genes, idv, genes.len() as int),
        genes_to_conns(b@, genes, idv, genes.len() as int),
        hidden_ok(b, idv, input_nodes + output_nodes + 1),
        forall|x: usize| gene_refs(genes, x) ==> #[trigger] id_present(idv, x),
        forall|b2: int| 0 <= b2 < input_nodes + output_nodes + 1 ==> #[trigger] id_present(
            idv,
            b2 as usize,
        ),
    ensures
        forall|k: int| 0 <= k < genes.len() ==> has_gene(b@, #[trigger] genes[k]),
        forall|i: int, j: int|
            #![trigger b@.nodes[i].adj[j]]
            0 <= i < b@.nodes.len() && 0 <= j < b@.nodes[i].adj.len() ==> genes.contains(
                gene_at(b@, i, j),
            ),
{
    let base_n = (input_nodes + output_nodes + 1) as int;
    lemma_ids_unique(idv);
    assert forall|l: int| 0 <= l < base_n implies l < idv.len() && idv[l] == l by {
        lemma_low_prefix(idv, base_n, l);
    }
    assert forall|x: usize|
        gene_refs(genes, x) implies (rank_of(idv, x) as int) < b@.nodes.len() && b@.nodes[rank_of(
        idv,
        x,
    )].global == x by {
        let p = rank_of(idv, x);
        assert(idv[p] == x && 0 <= p < idv.len());
        if (x as int) < base_n {
            assert(idv[x as int] == x);
            assert(p == x as int);
            assert(b@.nodes[p].global == p);
        } else {
            assert(p >= base_n) by {
                if p < base_n {
                    assert(idv[p] == p);
                }
            }
            lemma_cnt_high_exact(idv, p, base_n);
            assert(base_n + cnt_high(idv, p, base_n) == p);
            assert(b@.nodes[p].global == idv[p]);
        }
    }
    assert forall|k3: int| 0 <= k3 < genes.len() implies has_gene(b@, #[trigger] genes[k3]) by {
        assert(gene_placed(b@, genes, idv, k3));
        let (i, j) = choose|i: int, j: int|
            #![trigger b@.nodes[i].adj[j]]
            0 <= i < b@.nodes.len() && 0 <= j < b@.nodes[i].adj.len() && i == rank_of(
                idv,
                genes[k3].from,
            ) && b@.nodes[i].adj[j] == conn_of(genes[k3], idv);
        assert(gene_refs(genes, genes[k3].from)) by {
            assert(genes[k3].from == genes[k3].from || genes[k3].to == genes[k3].from);
        }
        assert(gene_refs(genes, genes[k3].to)) by {
            assert(genes[k3].from == genes[k3].to || genes[k3].to == genes[k3].to);
        }
        assert(b@.nodes[i].global == genes[k3].from);
        assert(b@.nodes[b@.nodes[i].adj[j].to as int].global == genes[k3].to);
        assert(genes[k3] == gene_at(b@, i, j));
    }
    assert forall|i: int, j: int|
        #![trigger b@.nodes[i].adj[j]]
        0 <= i < b@.nodes.len() && 0 <= j < b@.nodes[i].adj.len() implies genes.contains(
        gene_at(b@, i, j),
    ) by {
        assert(placed_gene(b@, genes, idv, genes.len() as int, i, j));
        let k3 = choose|k3: int|
            0 <= k3 < genes.len() && i == #[trigger] rank_of(idv, genes[k3].from) && b@.nodes[
            i].adj[j] == conn_of(genes[k3], idv);
        assert(gene_refs(genes, genes[k3].from)) by {
            assert(genes[k3].from == genes[k3].from || genes[k3].to == genes[k3].from);
        }
        assert(gene_refs(genes, genes[k3].to)) by {
            assert(genes[k3].from == genes[k3].to || genes[k3].to == genes[k3].to);
        }
        assert(b@.nodes[i].global == genes[k3].from);
        assert(b@.nodes[b@.nodes[i].adj[j].to as int].global == genes[k3].to);
        assert(gene_at(b@, i, j) == genes[k3]);
    }
}

pub open spec fn id_present(idv: Seq<usize>, x: usize) -> bool {
    exists|p: int| 0 <= p < idv.len() && #[trigger] idv[p] == x
}

/// In a strictly sorted id list that holds every id below `base`, the first
/// `base` positions are exactly those ids.
pub proof fn lemma_low_prefix(idv: Seq<usize>, base: int, l: int)
    requires
        forall|i: int, j: int| 0 <= i < j < idv.len() ==> #[trigger] idv[i] < #[trigger] idv[j],
        forall|b: int| 0 <= b < base ==> #[trigger] id_present(idv, b as usize),
        0 <= l < base <= usize::MAX,
    ensures
        l < idv.len(),
        idv[l] == l,
    decreases l,
{
    assert(id_present(idv, l as usize));
    let p = choose|p: int| 0 <= p < idv.len() && #[trigger] idv[p] == l as usize;
    if l == 0 {
        assert(p >= 0);
        if p > 0 {
            assert(idv[0] < idv[p]);
        }
    } else {
        lemma_low_prefix(idv, base, l - 1);
        assert(idv[l - 1] == l - 1);
        if p < l {
            if p < l - 1 {
                assert(idv[p] < idv[l - 1]);
            } else {
                assert(p == l - 1);
                assert(idv[p] == (l - 1) as usize);
            }
            assert(false);
        }
        assert(idv[l] >= idv[l - 1] + 1) by {
            assert(idv[l - 1] < idv[l]);
        }
        if p > l {
            assert(idv[l] < idv[p]);
        }
    }
}

/// When the lows occupy exactly the first `base` slots, the high count of any
/// longer prefix is the overhang.
pub proof fn lemma_cnt_high_exact(idv: Seq<usize>, h: int, base: int)
    requires
        forall|i: int, j: int| 0 <= i < j < idv.len() ==> #[trigger] idv[i] < #[trigger] idv[j],
        forall|l: int| 0 <= l < base && l < idv.len() ==> (#[trigger] idv[l] as int) == l,
        base <= h <= idv.len(),
        base >= 0,
    ensures
        cnt_high(idv, h, base) == h - base,
    decreases h,
{
    if h == base {
        lemma_cnt_high_low(idv, h, base);
    } else {
        lemma_cnt_high_exact(idv, h - 1, base);
        assert(idv[h - 1] >= base) by {
            lemma_sorted_ids_lower(idv, h - 1);
        }
    }
}

proof fn lemma_cnt_high_low(idv: Seq<usize>, h: int, base: int)
    requires
        forall|l: int| 0 <= l < base && l < idv.len() ==> (#[trigger] idv[l] as int) == l,
        0 <= h <= base,
        h <= idv.len(),
    ensures
        cnt_high(idv, h, base) == 0,
    decreases h,
{
    if h > 0 {
        lemma_cnt_high_low(idv, h - 1, base);
        assert((idv[h - 1] as int) == h - 1 < base);
    }
}


} // verus!
