use vstd::prelude::*;
use crate::activation::Activation;
use crate::cycle;
use crate::evaluate::{abs, eval_safe, eval_value};
use crate::flatten::{gene_at, genes_wf, has_gene, is_flat, GenomeInfo};
use crate::rebuild::lemma_active_pairs_acyclic;
use crate::genome::{total_len, Genome, GenomeV, CONN_CAP, MAX_WEIGHT, WEIGHT_CAP};
use crate::node::Connection;
use crate::pairs::PairMap;
use crate::rng;

verus! {

/// One compatibility cluster of the population: the member indices of the
/// current generation and the index of the leader genome that serves as the
/// cluster's compatibility reference.
pub struct Species {
    pub organisms: Vec<usize>,
    pub leader: usize,
}

impl Species {
    /// An empty cluster whose leader defaults to the first genome.
    pub fn new() -> (s: Species)
        ensures
            s.organisms@.len() == 0,
            s.leader == 0,
    {
        Species { organisms: Vec::new(), leader: 0 }
    }
}

/// The whole current generation plus the process-wide ledgers that make
/// structural mutations comparable across genomes: the split registry maps a
/// historical edge to the node identity its split created, the edge registry
/// maps a historical edge to its innovation number. Both grow monotonically
/// and are never pruned.
pub struct Population {
    pub population: Vec<Genome>,
    pub inno_count: usize,
    pub unique_nodes: usize,
    pub inno_split: PairMap,
    pub inno_edges: PairMap,
    pub inputs: usize,
    pub outputs: usize,
    pub act: Activation,
    pub previous_gen: Vec<Species>,
    pub gen: usize,
}

/// The edge ledger holds the deterministic base innovation number of every
/// starting edge: `(i, inputs + 1 + j)` maps to `i * outputs + j`.
pub open spec fn seeded_grid(m: Map<(usize, usize), usize>, inputs: usize, outputs: usize) -> bool {
    forall|i: int, j: int|
        #![trigger m[((i as usize), ((inputs + 1 + j) as usize))]]
        0 <= i <= inputs && 0 <= j < outputs ==> {
            let key = ((i as usize), ((inputs + 1 + j) as usize));
            m.dom().contains(key) && m[key] == i * outputs + j
        }
}

/// What a genome of a fresh population looks like: the base nodes under
/// their identity ids, and — when the population starts connected — every
/// input and the bias wired to every output with the deterministic base
/// innovation numbers and random weights; otherwise no connection at all.
pub open spec fn initial_genome(
    g: Genome,
    inputs: usize,
    outputs: usize,
    act: Activation,
    connect: bool,
) -> bool {
    &&& g.wf()
    &&& g.input_nodes == inputs
    &&& g.output_nodes == outputs
    &&& g.act == act
    &&& g.num_nodes == inputs + outputs + 1
    &&& g@.nodes.len() == inputs + outputs + 1
    &&& forall|l: int| 0 <= l < g@.nodes.len() ==> (#[trigger] g@.nodes[l]).global == l
    &&& if connect {
        &&& g.num_connections == (inputs + 1) * outputs
        &&& forall|i: int| 0 <= i <= inputs ==> (#[trigger] g@.nodes[i]).adj.len() == outputs
        &&& forall|i: int, j: int|
            #![trigger g@.nodes[i].adj[j]]
            0 <= i <= inputs && 0 <= j < outputs ==> {
                let c = g@.nodes[i].adj[j];
                &&& (c.to as int) == inputs + 1 + j
                &&& c.inno_number == i * outputs + j
                &&& c.active
                &&& -MAX_WEIGHT <= c.weight <= MAX_WEIGHT
            }
        &&& forall|i: int|
            inputs < i < g@.nodes.len() ==> (#[trigger] g@.nodes[i]).adj.len() == 0
    } else {
        &&& g.num_connections == 0
        &&& forall|i: int| 0 <= i < g@.nodes.len() ==> (#[trigger] g@.nodes[i]).adj.len() == 0
    }
}

/// Two genomes of a fresh population agree on history: their genes carry the
/// deterministic base innovation numbers, which decompose uniquely into an
/// input-output pair.
pub proof fn lemma_initial_aligned(
    g1: Genome,
    g2: Genome,
    inputs: usize,
    outputs: usize,
    act: Activation,
    connect: bool,
)
    requires
        initial_genome(g1, inputs, outputs, act, connect),
        initial_genome(g2, inputs, outputs, act, connect),
    ensures
        aligned(g1@, g2@),
{
    assert forall|x: GenomeInfo, y: GenomeInfo|
        #[trigger] has_gene(g1@, x) && #[trigger] has_gene(g2@, y) && x.innovation_number
            == y.innovation_number implies x.from == y.from && x.to == y.to by {
        let (i1, j1) = choose|i1: int, j1: int|
            0 <= i1 < g1@.nodes.len() && 0 <= j1 < g1@.nodes[i1].adj.len() && x == #[trigger]
            gene_at(g1@, i1, j1);
        let (i2, j2) = choose|i2: int, j2: int|
            0 <= i2 < g2@.nodes.len() && 0 <= j2 < g2@.nodes[i2].adj.len() && y == #[trigger]
            gene_at(g2@, i2, j2);
        if connect {
            assert(i1 <= inputs) by {
                if i1 > inputs {
                    assert(g1@.nodes[i1].adj.len() == 0);
                }
            }
            assert(i2 <= inputs) by {
                if i2 > inputs {
                    assert(g2@.nodes[i2].adj.len() == 0);
                }
            }
            let c1 = g1@.nodes[i1].adj[j1];
            let c2 = g2@.nodes[i2].adj[j2];
            assert(c1.inno_number == i1 * outputs + j1 && (c1.to as int) == inputs + 1 + j1);
            assert(c2.inno_number == i2 * outputs + j2 && (c2.to as int) == inputs + 1 + j2);
            assert(i1 == i2 && j1 == j2) by (nonlinear_arith)
                requires
                    i1 * outputs + j1 == i2 * outputs + j2,
                    0 <= j1 < outputs,
                    0 <= j2 < outputs,
                    0 <= i1,
                    0 <= i2,
            ;
            assert(x.from == g1@.nodes[i1].global);
            assert(y.from == g2@.nodes[i2].global);
            assert(x.to == g1@.nodes[inputs + 1 + j1].global);
            assert(y.to == g2@.nodes[inputs + 1 + j2].global);
        } else {
            assert(g1@.nodes[i1].adj.len() == 0);
        }
    }
}

/// Every outcome of one add-edge attempt: the genome is untouched, one
/// existing connection was re-enabled, or one new active edge went in with
/// its ledger innovation number and a unit-range weight.
pub open spec fn edge_attempt_outcome(p1: Population, g0: Genome, g1: Genome) -> bool {
    ||| g1@ == g0@
    ||| exists|f: usize, t: usize|
        #![trigger g0@.with_active(f as int, t, true)]
        g1@ == g0@.with_active(f as int, t, true)
    ||| exists|f: usize, t: usize, inno: usize, w: i64|
        #![trigger g0@.with_conn(f as int, Connection { to: t, inno_number: inno, active: true, weight: w })]
        {
            &&& (f as int) < g0@.n()
            &&& (t as int) < g0@.n()
            &&& g1@ == g0@.with_conn(
                f as int,
                Connection { to: t, inno_number: inno, active: true, weight: w },
            )
            &&& -1 <= w <= 1
            &&& p1.inno_edges.as_map().dom().contains(
                (g0@.nodes[f as int].global, g0@.nodes[t as int].global),
            )
            &&& p1.inno_edges.as_map()[(g0@.nodes[f as int].global, g0@.nodes[t as int].global)]
                == inno
        }
}

/// Every outcome of one split attempt: the genome is untouched, or one live
/// edge was split through the ledger's node identity with the ledger's
/// innovation number.
pub open spec fn split_attempt_outcome(p1: Population, g0: Genome, g1: Genome) -> bool {
    ||| g1@ == g0@
    ||| exists|f: usize, t: usize, inno: usize, nid: usize|
        #![trigger g0@.with_active(f as int, t, false).with_node(nid).with_conn(f as int, Connection { to: g0@.nodes.len() as usize, inno_number: inno, active: true, weight: 1 })]
        {
            let gv = g0@;
            let id = gv.nodes.len() as usize;
            let w = crate::genome::weight_to(gv.nodes[f as int].adj, t);
            &&& (f as int) < gv.n()
            &&& (t as int) < gv.n()
            &&& gv.live_pair(f, t)
            &&& g1@ == gv.with_active(f as int, t, false).with_node(nid).with_conn(
                f as int,
                Connection { to: id, inno_number: inno, active: true, weight: 1 },
            ).with_conn(
                id as int,
                Connection {
                    to: t,
                    inno_number: (inno + 1) as usize,
                    active: true,
                    weight: w,
                },
            )
            &&& p1.inno_split.as_map().dom().contains(
                (gv.nodes[f as int].global, gv.nodes[t as int].global),
            )
            &&& p1.inno_split.as_map()[(gv.nodes[f as int].global, gv.nodes[t as int].global)]
                == nid
            &&& p1.inno_edges.as_map().dom().contains((gv.nodes[f as int].global, nid))
            &&& p1.inno_edges.as_map()[(gv.nodes[f as int].global, nid)] == inno
        }
}

impl Population {
    /// Well-formedness: every genome is well-formed and shares the
    /// population's layout, and both registries hold each historical key
    /// once.
    pub open spec fn wf(self) -> bool {
        &&& self.inno_split.distinct_keys()
        &&& self.inno_edges.distinct_keys()
        &&& self.outputs >= 1
        &&& self.inputs + self.outputs + 1 <= usize::MAX
        &&& forall|k: int|
            0 <= k < self.population@.len() ==> {
                let g = #[trigger] self.population@[k];
                &&& g.wf()
                &&& g.input_nodes == self.inputs
                &&& g.output_nodes == self.outputs
                &&& g.act == self.act
            }
    }

    /// A fresh population of `size` genomes, optionally fully connected,
    /// with the edge registry seeded by the deterministic base innovation
    /// numbers.
    pub fn new(
        size: usize,
        inputs: usize,
        outputs: usize,
        act: Activation,
        connect: bool,
    ) -> (p: Population)
        requires
            inputs + outputs + 1 <= usize::MAX,
            (inputs + 1) * outputs <= CONN_CAP,
            outputs >= 1,
        ensures
            p.wf(),
            p.population@.len() == size,
            p.inputs == inputs,
            p.outputs == outputs,
            p.act == act,
            p.gen == 0,
            p.unique_nodes == inputs + outputs + 1,
            p.inno_count == (inputs + 1) * outputs,
            p.previous_gen@.len() == 0,
            p.inno_split.as_map() == Map::<(usize, usize), usize>::empty(),
            forall|k: int|
                0 <= k < p.population@.len() ==> initial_genome(
                    #[trigger] p.population@[k],
                    inputs,
                    outputs,
                    act,
                    connect,
                ),
            forall|k1: int, k2: int|
                0 <= k1 < p.population@.len() && 0 <= k2 < p.population@.len() ==> aligned(
                    (#[trigger] p.population@[k1])@,
                    (#[trigger] p.population@[k2])@,
                ),
            seeded_grid(p.inno_edges.as_map(), inputs, outputs),
    {
        let mut pop: Vec<Genome> = Vec::new();
        let mut k: usize = 0;
        while k < size
            invariant
                0 <= k <= size,
                inputs + outputs + 1 <= usize::MAX,
                (inputs + 1) * outputs <= CONN_CAP,
                pop@.len() == k,
                forall|k2: int|
                    0 <= k2 < k ==> initial_genome(#[trigger] pop@[k2], inputs, outputs, act, connect),
            decreases size - k,
        {
            let mut g = Genome::new(inputs, outputs, act);
            if connect {
                g.connect_ends();
            }
            pop.push(g);
            k += 1;
        }
        let mut obj = Population {
            gen: 0,
            previous_gen: Vec::new(),
            population: pop,
            inno_count: (inputs + 1) * outputs,
            unique_nodes: inputs + outputs + 1,
            inno_split: PairMap::new(),
            inno_edges: PairMap::new(),
            act,
            inputs,
            outputs,
        };
        obj.initialize_inno();
        proof {
            assert forall|k1: int, k2: int|
                0 <= k1 < obj.population@.len() && 0 <= k2 < obj.population@.len() implies aligned(
                (#[trigger] obj.population@[k1])@,
                (#[trigger] obj.population@[k2])@,
            ) by {
                lemma_initial_aligned(
                    obj.population@[k1],
                    obj.population@[k2],
                    inputs,
                    outputs,
                    act,
                    connect,
                );
            }
        }
        obj
    }

    /// Seeds the edge registry with the deterministic innovation numbers of
    /// the fully connected starting layout: edge `(i, inputs + 1 + j)` gets
    /// `i * outputs + j`.
    pub fn initialize_inno(&mut self)
        requires
            old(self).inno_edges.items@.len() == 0,
            old(self).inno_edges.distinct_keys(),
            old(self).inputs + old(self).outputs + 1 <= usize::MAX,
            (old(self).inputs + 1) * old(self).outputs <= CONN_CAP,
        ensures
            final(self).inno_edges.distinct_keys(),
            seeded_grid(final(self).inno_edges.as_map(), old(self).inputs, old(self).outputs),
            final(self).population == old(self).population,
            final(self).inno_split == old(self).inno_split,
            final(self).inno_count == old(self).inno_count,
            final(self).unique_nodes == old(self).unique_nodes,
            final(self).inputs == old(self).inputs,
            final(self).outputs == old(self).outputs,
            final(self).act == old(self).act,
            final(self).previous_gen == old(self).previous_gen,
            final(self).gen == old(self).gen,
    {
        let inputs = self.inputs;
        let outputs = self.outputs;
        let mut i: usize = 0;
        while i < inputs + 1
            invariant
                0 <= i <= inputs + 1,
                inputs == self.inputs,
                outputs == self.outputs,
                inputs + outputs + 1 <= usize::MAX,
                (inputs + 1) * outputs <= CONN_CAP,
                self.inno_edges.distinct_keys(),
                self.population == old(self).population,
                self.inno_split == old(self).inno_split,
                self.inno_count == old(self).inno_count,
                self.unique_nodes == old(self).unique_nodes,
                self.inputs == old(self).inputs,
                self.outputs == old(self).outputs,
                self.act == old(self).act,
                self.previous_gen == old(self).previous_gen,
                self.gen == old(self).gen,
                forall|a: usize, b: usize|
                    #![trigger self.inno_edges.as_map().dom().contains((a, b))]
                    self.inno_edges.as_map().dom().contains((a, b)) <==> ((a as int) < i && inputs
                        + 1 <= b < inputs + 1 + outputs),
                forall|i2: int, j2: int|
                    #![trigger self.inno_edges.as_map()[((i2 as usize), ((inputs + 1 + j2) as usize))]]
                    0 <= i2 < i && 0 <= j2 < outputs ==> {
                        let key = ((i2 as usize), ((inputs + 1 + j2) as usize));
                        self.inno_edges.as_map().dom().contains(key) && self.inno_edges.as_map()[
                            key] == i2 * outputs + j2
                    },
            decreases inputs + 1 - i,
        {
            let mut j: usize = 0;
            while j < outputs
                invariant
                    0 <= i <= inputs,
                    0 <= j <= outputs,
                    inputs == self.inputs,
                    outputs == self.outputs,
                    inputs + outputs + 1 <= usize::MAX,
                    (inputs + 1) * outputs <= CONN_CAP,
                    self.inno_edges.distinct_keys(),
                    self.population == old(self).population,
                    self.inno_split == old(self).inno_split,
                    self.inno_count == old(self).inno_count,
                    self.unique_nodes == old(self).unique_nodes,
                    self.inputs == old(self).inputs,
                    self.outputs == old(self).outputs,
                    self.act == old(self).act,
                    self.previous_gen == old(self).previous_gen,
                    self.gen == old(self).gen,
                    forall|a: usize, b: usize|
                        #![trigger self.inno_edges.as_map().dom().contains((a, b))]
                        self.inno_edges.as_map().dom().contains((a, b)) <==> (((a as int) < i
                            && inputs + 1 <= b < inputs + 1 + outputs) || (a == i && inputs + 1
                            <= b < inputs + 1 + j)),
                    forall|i2: int, j2: int|
                        #![trigger self.inno_edges.as_map()[((i2 as usize), ((inputs + 1 + j2) as usize))]]
                        (0 <= i2 < i || (i2 == i as int && 0 <= j2 < j)) && 0 <= i2 <= i && 0 <= j2
                            < outputs ==> {
                            let key = ((i2 as usize), ((inputs + 1 + j2) as usize));
                            self.inno_edges.as_map().dom().contains(key) && self.inno_edges.as_map()[
                                key] == i2 * outputs + j2
                        },
                decreases outputs - j,
            {
                proof {
                    assert(!self.inno_edges.as_map().dom().contains(
                        ((i as usize), ((inputs + 1 + j) as usize)),
                    ));
                    assert((i * outputs + j) + 1 <= (inputs + 1) * outputs) by (nonlinear_arith)
                        requires
                            0 <= i <= inputs,
                            0 <= j < outputs,
                    ;
                }
                let ghost pre = self.inno_edges;
                let key_b = inputs + 1 + j;
                let val = i * outputs + j;
                let m = &mut self.inno_edges;
                m.insert(i, key_b, val);
                proof {
                    assert forall|a: usize, b: usize|
                        #![trigger self.inno_edges.as_map().dom().contains((a, b))]
                        self.inno_edges.as_map().dom().contains((a, b)) <==> (((a as int) < i
                            && inputs + 1 <= b < inputs + 1 + outputs) || (a == i && inputs + 1
                            <= b < inputs + 1 + (j + 1))) by {
                        if (a, b) != ((i as usize), (key_b as usize)) {
                            assert(self.inno_edges.as_map().dom().contains((a, b))
                                == pre.as_map().dom().contains((a, b)));
                        }
                    }
                }
                j += 1;
            }
            i += 1;
        }
    }

    /// The second ledger keeps everything the first holds: historical ids,
    /// once assigned, never change.
    pub open spec fn map_extends(
        m1: Map<(usize, usize), usize>,
        m2: Map<(usize, usize), usize>,
    ) -> bool {
        forall|k: (usize, usize)|
            #[trigger] m1.dom().contains(k) ==> m2.dom().contains(k) && m2[k] == m1[k]
    }

    /// What one registry lookup does: an unseen historical key is assigned
    /// the next id and recorded, a seen key hands its id back unchanged.
    pub open spec fn lookup_post(
        pre: Map<(usize, usize), usize>,
        post: Map<(usize, usize), usize>,
        counter_pre: usize,
        counter_post: usize,
        from: usize,
        to: usize,
        r: usize,
    ) -> bool {
        if pre.dom().contains((from, to)) {
            r == pre[(from, to)] && post == pre && counter_post == counter_pre
        } else {
            r == counter_pre && post == pre.insert((from, to), r) && counter_post == counter_pre
                + 1
        }
    }

    /// Looks up — or mints — the stable identity of the node created by
    /// splitting the historical edge `(from, to)`.
    pub fn get_inno_split(&mut self, from: usize, to: usize) -> (r: usize)
        requires
            old(self).wf(),
            old(self).unique_nodes < usize::MAX,
        ensures
            final(self).wf(),
            Population::lookup_post(
                old(self).inno_split.as_map(),
                final(self).inno_split.as_map(),
                old(self).unique_nodes,
                final(self).unique_nodes,
                from,
                to,
                r,
            ),
            final(self).population == old(self).population,
            final(self).inno_edges == old(self).inno_edges,
            final(self).inno_count == old(self).inno_count,
            final(self).inputs == old(self).inputs,
            final(self).outputs == old(self).outputs,
            final(self).act == old(self).act,
            final(self).previous_gen == old(self).previous_gen,
            final(self).gen == old(self).gen,
    {
        let existing = self.inno_split.get(from, to);
        match existing {
            Some(v) => v,
            None => {
                let id = self.unique_nodes;
                let m = &mut self.inno_split;
                m.insert(from, to, id);
                self.unique_nodes = self.unique_nodes + 1;
                id
            },
        }
    }

    /// Looks up — or mints — the innovation number of the historical edge
    /// `(from, to)`.
    pub fn get_inno_edge(&mut self, from: usize, to: usize) -> (r: usize)
        requires
            old(self).wf(),
            old(self).inno_count < usize::MAX,
        ensures
            final(self).wf(),
            Population::lookup_post(
                old(self).inno_edges.as_map(),
                final(self).inno_edges.as_map(),
                old(self).inno_count,
                final(self).inno_count,
                from,
                to,
                r,
            ),
            final(self).population == old(self).population,
            final(self).inno_split == old(self).inno_split,
            final(self).unique_nodes == old(self).unique_nodes,
            final(self).inputs == old(self).inputs,
            final(self).outputs == old(self).outputs,
            final(self).act == old(self).act,
            final(self).previous_gen == old(self).previous_gen,
            final(self).gen == old(self).gen,
    {
        let existing = self.inno_edges.get(from, to);
        match existing {
            Some(v) => v,
            None => {
                let id = self.inno_count;
                let m = &mut self.inno_edges;
                m.insert(from, to, id);
                self.inno_count = self.inno_count + 1;
                id
            },
        }
    }

    /// One structural split attempt on a genome: draw a live edge, fetch or
    /// mint the historical node identity and the two edge innovation numbers,
    /// and apply the split. Attempts whose ledger ids would collide with the
    /// genome's state — impossible when the genome was built through this
    /// ledger — are abandoned rather than applied.
    pub fn random_split(&mut self, genome: &mut Genome)
        requires
            old(self).wf(),
            old(genome).wf(),
            old(genome).input_nodes == old(self).inputs,
            old(genome).output_nodes == old(self).outputs,
            old(genome).act == old(self).act,
        ensures
            final(self).wf(),
            final(genome).wf(),
            final(genome).input_nodes == old(self).inputs,
            final(genome).output_nodes == old(self).outputs,
            final(genome).act == old(self).act,
            final(self).population == old(self).population,
            final(self).inputs == old(self).inputs,
            final(self).outputs == old(self).outputs,
            final(self).act == old(self).act,
            final(self).previous_gen == old(self).previous_gen,
            final(self).gen == old(self).gen,
            Population::map_extends(
                old(self).inno_split.as_map(),
                final(self).inno_split.as_map(),
            ),
            Population::map_extends(
                old(self).inno_edges.as_map(),
                final(self).inno_edges.as_map(),
            ),
            split_attempt_outcome(*final(self), *old(genome), *final(genome)),
    {
        let picked = genome.random_split();
        match picked {
            None => {},
            Some(e) => {
                proof {
                    assert(old(genome)@.live_pair(e.0, e.1));
                    let j = choose|j: int|
                        0 <= j < old(genome)@.nodes[e.0 as int].adj.len() && (#[trigger] old(
                            genome,
                        )@.nodes[e.0 as int].adj[j]).active && old(genome)@.nodes[
                        e.0 as int].adj[j].to == e.1;
                    assert((e.1 as int) < old(genome)@.n());
                }
                let u_global = genome.local_to_global(e.0);
                let v_global = genome.local_to_global(e.1);
                if self.unique_nodes == usize::MAX {
                    return ;
                }
                let split_node = self.get_inno_split(u_global, v_global);
                if genome.node_exists(split_node) {
                    // a node with this historical identity is already there:
                    // the split is a no-op
                    genome.split_edge(e.0, e.1, 0, split_node);
                    proof {
                        assert(genome@ == old(genome)@);
                    }
                    return ;
                }
                if self.inno_count >= usize::MAX - 1 {
                    return ;
                }
                let inno = self.get_inno_edge(u_global, split_node);
                let _ = self.get_inno_edge(split_node, v_global);
                if inno == usize::MAX {
                    return ;
                }
                if !genome.inno_fresh(inno) || !genome.inno_fresh(inno + 1) {
                    return ;
                }
                if genome.num_nodes == usize::MAX {
                    return ;
                }
                if genome.connection_total() > CONN_CAP - 2 {
                    return ;
                }
                genome.split_edge(e.0, e.1, inno, split_node);
                proof {
                    let gv = old(genome)@;
                    assert(gv.live_pair(e.0, e.1));
                    assert(u_global == gv.nodes[e.0 as int].global);
                    assert(v_global == gv.nodes[e.1 as int].global);
                    assert(self.inno_split.as_map()[(u_global, v_global)] == split_node);
                    assert(self.inno_edges.as_map()[(u_global, split_node)] == inno);
                    assert(gv.with_active(e.0 as int, e.1, false).with_node(split_node) == gv
                        .with_active(e.0 as int, e.1, false).with_node(split_node));
                    assert(split_attempt_outcome(*self, *old(genome), *genome));
                }
            },
        }
    }

    /// One add-edge attempt on a genome: draw a cycle-free candidate pair,
    /// fetch or mint its innovation number, and add the edge — or re-enable
    /// it when it exists disabled.
    pub fn random_edge(&mut self, genome: &mut Genome)
        requires
            old(self).wf(),
            old(genome).wf(),
            old(genome).input_nodes == old(self).inputs,
            old(genome).output_nodes == old(self).outputs,
            old(genome).act == old(self).act,
        ensures
            final(self).wf(),
            final(genome).wf(),
            final(genome).input_nodes == old(self).inputs,
            final(genome).output_nodes == old(self).outputs,
            final(genome).act == old(self).act,
            final(self).population == old(self).population,
            final(self).inputs == old(self).inputs,
            final(self).outputs == old(self).outputs,
            final(self).act == old(self).act,
            final(self).previous_gen == old(self).previous_gen,
            final(self).gen == old(self).gen,
            Population::map_extends(
                old(self).inno_split.as_map(),
                final(self).inno_split.as_map(),
            ),
            Population::map_extends(
                old(self).inno_edges.as_map(),
                final(self).inno_edges.as_map(),
            ),
            edge_attempt_outcome(*final(self), *old(genome), *final(genome)),
    {
        let picked = genome.random_edge();
        match picked {
            None => {},
            Some(e) => {
                let u_global = genome.local_to_global(e.0);
                let v_global = genome.local_to_global(e.1);
                if self.inno_count == usize::MAX {
                    return ;
                }
                let inno = self.get_inno_edge(u_global, v_global);
                if genome.edge_exist(e.0, e.1) {
                    if !genome.edge_active(e.0, e.1) {
                        genome.enable_edge(e.0, e.1);
                        proof {
                            assert(genome@ == old(genome)@.with_active(e.0 as int, e.1, true));
                            assert(edge_attempt_outcome(*self, *old(genome), *genome));
                        }
                    }
                } else {
                    if !genome.inno_fresh(inno) {
                        return ;
                    }
                    if genome.connection_total() >= CONN_CAP {
                        return ;
                    }
                    let w = rng::rand_i64(-1, 1);
                    proof {
                        let r = choose|r: Seq<int>|
                            cycle::valid_rank(
                                old(genome)@.with_conn(e.0 as int, cycle::probe_conn(e.1)),
                                r,
                            );
                        cycle::lemma_rank_for_weaker(
                            old(genome)@.with_conn(e.0 as int, cycle::probe_conn(e.1)),
                            old(genome)@.with_conn(
                                e.0 as int,
                                Connection { to: e.1, inno_number: inno, active: true, weight: w },
                            ),
                            r,
                        );
                    }
                    genome.add_edge(e.0, e.1, inno, w, true);
                    proof {
                        let gv = old(genome)@;
                        assert(genome@ == gv.with_conn(
                            e.0 as int,
                            Connection { to: e.1, inno_number: inno, active: true, weight: w },
                        ));
                        assert(u_global == gv.nodes[e.0 as int].global);
                        assert(v_global == gv.nodes[e.1 as int].global);
                        assert(self.inno_edges.as_map()[(u_global, v_global)] == inno);
                        assert(edge_attempt_outcome(*self, *old(genome), *genome));
                    }
                }
            },
        }
    }

    /// One mutation attempt: with one chance in five a structural split,
    /// otherwise a new edge.
    pub fn mutate(&mut self, genome: &mut Genome)
        requires
            old(self).wf(),
            old(genome).wf(),
            old(genome).input_nodes == old(self).inputs,
            old(genome).output_nodes == old(self).outputs,
            old(genome).act == old(self).act,
        ensures
            final(self).wf(),
            final(genome).wf(),
            final(genome).input_nodes == old(self).inputs,
            final(genome).output_nodes == old(self).outputs,
            final(genome).act == old(self).act,
            final(self).population == old(self).population,
            final(self).inputs == old(self).inputs,
            final(self).outputs == old(self).outputs,
            final(self).act == old(self).act,
            final(self).previous_gen == old(self).previous_gen,
            final(self).gen == old(self).gen,
            Population::map_extends(
                old(self).inno_split.as_map(),
                final(self).inno_split.as_map(),
            ),
            Population::map_extends(
                old(self).inno_edges.as_map(),
                final(self).inno_edges.as_map(),
            ),
            split_attempt_outcome(*final(self), *old(genome), *final(genome))
                || edge_attempt_outcome(*final(self), *old(genome), *final(genome)),
    {
        if rng::chance(1, 5) {
            self.random_split(genome);
        } else {
            self.random_edge(genome);
        }
    }
}

/// Innovation determinism: once a historical split is registered, every later
/// lookup of the same pair — by whichever genome rediscovers it — returns the
/// same node identity and leaves the ledger unchanged. Two independent
/// genomes that split the same historical edge against a shared population
/// therefore converge on one new node id.
pub proof fn lemma_innovation_determinism(
    m0: Map<(usize, usize), usize>,
    m1: Map<(usize, usize), usize>,
    m2: Map<(usize, usize), usize>,
    c0: usize,
    c1: usize,
    c2: usize,
    from: usize,
    to: usize,
    r1: usize,
    r2: usize,
)
    requires
        Population::lookup_post(m0, m1, c0, c1, from, to, r1),
        Population::lookup_post(m1, m2, c1, c2, from, to, r2),
    ensures
        r2 == r1,
        m2 == m1,
        c2 == c1,
{
    if m0.dom().contains((from, to)) {
    } else {
        assert(m1.dom().contains((from, to)));
        assert(m1[(from, to)] == r1);
    }
}


/// One pass of the alignment walk over two innovation-sorted gene lists,
/// from cursors `i` and `j`: (matching, disjoint, weight difference, excess).
pub open spec fn align_stats(a: Seq<GenomeInfo>, b: Seq<GenomeInfo>, i: int, j: int) -> (
    int,
    int,
    int,
    int,
)
    decreases a.len() + b.len() - i - j,
{
    if i >= a.len() || j >= b.len() || i < 0 || j < 0 {
        (0, 0, 0, (if i <= a.len() { a.len() - i } else { 0 }) + (if j <= b.len() {
            b.len() - j
        } else {
            0
        }))
    } else if a[i].innovation_number == b[j].innovation_number {
        let r = align_stats(a, b, i + 1, j + 1);
        (r.0 + 1, r.1, r.2 + abs(a[i].weight - b[j].weight), r.3)
    } else if a[i].innovation_number < b[j].innovation_number {
        let r = align_stats(a, b, i + 1, j);
        (r.0, r.1 + 1, r.2, r.3)
    } else {
        let r = align_stats(a, b, i, j + 1);
        (r.0, r.1 + 1, r.2, r.3)
    }
}

/// The compatibility distance in exact thousandths: the classic weighted
/// combination of excess, disjoint and matching-weight difference, with the
/// coefficients four fifths, four fifths and two fifths, normalized by the
/// longer gene count (one for small genomes) and the matching count. `None`
/// when no gene matches: such genomes are never compatible.
pub open spec fn delta_milli(a: Seq<GenomeInfo>, b: Seq<GenomeInfo>) -> Option<int> {
    let st = align_stats(a, b, 0, 0);
    let n0: int = if a.len() >= b.len() {
        a.len() as int
    } else {
        b.len() as int
    };
    let n: int = if n0 < 20 {
        1
    } else {
        n0
    };
    if st.0 == 0 {
        None
    } else {
        Some(1000 * (4 * st.3 * st.0 + 4 * st.1 * st.0 + 2 * st.2 * n) / (5 * n * st.0))
    }
}

pub proof fn lemma_stats_bounds(a: Seq<GenomeInfo>, b: Seq<GenomeInfo>, i: int, j: int)
    requires
        0 <= i <= a.len(),
        0 <= j <= b.len(),
        genes_wf_weights(a),
        genes_wf_weights(b),
    ensures
        ({
            let st = align_stats(a, b, i, j);
            &&& 0 <= st.0 <= a.len() - i
            &&& 0 <= st.1 <= (a.len() - i) + (b.len() - j)
            &&& 0 <= st.2 <= (a.len() - i) * 2 * WEIGHT_CAP
            &&& 0 <= st.3 <= (a.len() - i) + (b.len() - j)
        }),
    decreases a.len() + b.len() - i - j,
{
    if i >= a.len() || j >= b.len() {
    } else if a[i].innovation_number == b[j].innovation_number {
        lemma_stats_bounds(a, b, i + 1, j + 1);
        assert(abs(a[i].weight - b[j].weight) <= 2 * WEIGHT_CAP);
        assert((a.len() - i) * 2 * WEIGHT_CAP == (a.len() - i - 1) * 2 * WEIGHT_CAP + 2
            * WEIGHT_CAP) by (nonlinear_arith);
        assert((a.len() - i - 1) * 2 * WEIGHT_CAP >= 0) by (nonlinear_arith)
            requires
                a.len() - i - 1 >= 0,
        ;
    } else if a[i].innovation_number < b[j].innovation_number {
        lemma_stats_bounds(a, b, i + 1, j);
        assert((a.len() - i) * 2 * WEIGHT_CAP >= (a.len() - i - 1) * 2 * WEIGHT_CAP) by (
        nonlinear_arith);
    } else {
        lemma_stats_bounds(a, b, i, j + 1);
    }
}

/// Weights inside the cap, stated of a bare gene list.
pub open spec fn genes_wf_weights(a: Seq<GenomeInfo>) -> bool {
    forall|k: int|
        0 <= k < a.len() ==> -WEIGHT_CAP <= (#[trigger] a[k]).weight <= WEIGHT_CAP
}

impl Population {
    /// Compatibility distance between two genomes, in exact thousandths over
    /// their serialized gene lists; `None` when no gene matches.
    pub fn delta(&self, u: &Genome, v: &Genome) -> (r: Option<i128>)
        requires
            u.wf(),
            v.wf(),
        ensures
            exists|a: Seq<GenomeInfo>, b: Seq<GenomeInfo>|
                #[trigger] is_flat(u@, a) && #[trigger] is_flat(v@, b) && (match r {
                    Option::None => delta_milli(a, b) == None::<int>,
                    Option::Some(x) => delta_milli(a, b) == Some(x as int),
                }),
    {
        let ga = u.flatten();
        let gb = v.flatten();
        let ghost a = ga@;
        let ghost b = gb@;
        let la = ga.len();
        let lb = gb.len();
        proof {
            assert(genes_wf_weights(a));
            assert(genes_wf_weights(b));
            assert(la <= CONN_CAP && lb <= CONN_CAP);
        }
        let mut i: usize = 0;
        let mut j: usize = 0;
        let mut matching: usize = 0;
        let mut disjoint: usize = 0;
        let mut wdiff: i128 = 0;
        while i < la && j < lb
            invariant
                0 <= i <= la,
                0 <= j <= lb,
                la == a.len(),
                lb == b.len(),
                a == ga@,
                b == gb@,
                la <= CONN_CAP,
                lb <= CONN_CAP,
                genes_wf_weights(a),
                genes_wf_weights(b),
                matching <= i,
                disjoint <= i + j,
                0 <= wdiff <= (i as int) * 2 * WEIGHT_CAP,
                align_stats(a, b, 0, 0).0 == matching + align_stats(a, b, i as int, j as int).0,
                align_stats(a, b, 0, 0).1 == disjoint + align_stats(a, b, i as int, j as int).1,
                align_stats(a, b, 0, 0).2 == wdiff + align_stats(a, b, i as int, j as int).2,
                align_stats(a, b, 0, 0).3 == align_stats(a, b, i as int, j as int).3,
            decreases la + lb - i - j,
        {
            let ca = ga[i];
            let cb = gb[j];
            if ca.innovation_number == cb.innovation_number {
                let d = if ca.weight >= cb.weight {
                    (ca.weight as i128) - (cb.weight as i128)
                } else {
                    (cb.weight as i128) - (ca.weight as i128)
                };
                proof {
                    assert(d == abs(a[i as int].weight - b[j as int].weight));
                    assert((i as int) * 2 * WEIGHT_CAP + 2 * WEIGHT_CAP == (i as int + 1) * 2
                        * WEIGHT_CAP) by (nonlinear_arith);
                    assert((i as int + 1) * 2 * WEIGHT_CAP <= CONN_CAP * 2 * (WEIGHT_CAP as int))
                        by (nonlinear_arith)
                        requires
                            0 <= i as int + 1 <= CONN_CAP,
                    ;
                }
                wdiff = wdiff + d;
                matching = matching + 1;
                i = i + 1;
                j = j + 1;
            } else if ca.innovation_number < cb.innovation_number {
                disjoint = disjoint + 1;
                i = i + 1;
            } else {
                disjoint = disjoint + 1;
                j = j + 1;
            }
        }
        let excess = (la - i) + (lb - j);
        proof {
            assert(align_stats(a, b, i as int, j as int).0 == 0);
            assert(align_stats(a, b, i as int, j as int).1 == 0);
            assert(align_stats(a, b, i as int, j as int).2 == 0);
            assert(align_stats(a, b, i as int, j as int).3 == excess);
        }
        let n0 = if la >= lb {
            la
        } else {
            lb
        };
        let n: i128 = if n0 < 20 {
            1
        } else {
            n0 as i128
        };
        if matching == 0 {
            proof {
                assert(is_flat(u@, a) && is_flat(v@, b) && delta_milli(a, b) == None::<int>);
            }
            return None;
        }
        let m = matching as i128;
        let e = excess as i128;
        let dj = disjoint as i128;
        proof {
            lemma_stats_bounds(a, b, 0, 0);
            assert(0 <= wdiff <= CONN_CAP * 2 * (WEIGHT_CAP as int)) by (nonlinear_arith)
                requires
                    0 <= wdiff <= (i as int) * 2 * WEIGHT_CAP,
                    0 <= i as int <= CONN_CAP,
            ;
            assert(4 * e * m + 4 * dj * m + 2 * wdiff * n >= 0) by (nonlinear_arith)
                requires
                    e >= 0,
                    m >= 1,
                    dj >= 0,
                    wdiff >= 0,
                    n >= 1,
            ;
            assert(1000 * (4 * e * m + 4 * dj * m + 2 * wdiff * n) <= 0x1000000000000000000000000000000
            ) by (nonlinear_arith)
                requires
                    0 <= e <= 2 * CONN_CAP,
                    0 <= dj <= 2 * CONN_CAP,
                    1 <= m <= CONN_CAP,
                    0 <= wdiff <= CONN_CAP * 2 * (WEIGHT_CAP as int),
                    1 <= n <= CONN_CAP,
            ;
            assert(5 * n * m > 0) by (nonlinear_arith)
                requires
                    n >= 1,
                    m >= 1,
            ;
            assert(5 * n * m <= 5 * CONN_CAP * CONN_CAP) by (nonlinear_arith)
                requires
                    1 <= n <= CONN_CAP,
                    1 <= m <= CONN_CAP,
            ;
        }
        let num: i128 = 1000 * (4 * e * m + 4 * dj * m + 2 * wdiff * n);
        let den: i128 = 5 * n * m;
        let d = num / den;
        proof {
            assert(delta_milli(a, b) == Some(d as int));
        }
        Some(d)
    }
}


/// Same historical identity: endpoints and innovation number agree.
pub open spec fn same_triple(x: GenomeInfo, y: GenomeInfo) -> bool {
    x.from == y.from && x.to == y.to && x.innovation_number == y.innovation_number
}

/// Same identity and the same weight.
pub open spec fn same_quad(x: GenomeInfo, y: GenomeInfo) -> bool {
    same_triple(x, y) && x.weight == y.weight
}

/// The genome carries a gene with this innovation number and weight.
pub open spec fn gene_weight_of(g: GenomeV, inno: usize, w: i64) -> bool {
    exists|z: GenomeInfo|
        #[trigger] has_gene(g, z) && z.innovation_number == inno && z.weight == w
}

/// Member position `m2` appears somewhere in the ranking.
pub open spec fn ranked_somewhere(best: Seq<(u64, usize)>, m2: int) -> bool {
    exists|k2: int| 0 <= k2 < best.len() && ((#[trigger] best[k2]).1 as int) == m2
}

/// The two genomes carry exactly the same gene records.
pub open spec fn genes_match(g1: Genome, g2: Genome) -> bool {
    forall|x: GenomeInfo| #[trigger] has_gene(g1@, x) <==> has_gene(g2@, x)
}

/// Some gene of the genome matches record `k` up to its active flag.
pub open spec fn quad_present(g: GenomeV, merged: Seq<GenomeInfo>, k: int) -> bool {
    exists|x: GenomeInfo| #[trigger] has_gene(g, x) && same_quad(x, merged[k])
}

/// What crossover promises: the child carries exactly the fitter parent's
/// historical genes — same endpoints and innovation numbers — and each
/// weight is the fitter parent's or, for a homologous gene, the other
/// parent's.
pub open spec fn bred_from(child: Genome, u: Genome, v: Genome) -> bool {
    &&& forall|x: GenomeInfo|
        #[trigger] has_gene(child@, x) ==> exists|y: GenomeInfo|
            #[trigger] has_gene(u@, y) && same_triple(x, y) && (x.weight == y.weight
                || gene_weight_of(v@, x.innovation_number, x.weight))
    &&& forall|y: GenomeInfo|
        #[trigger] has_gene(u@, y) ==> exists|x: GenomeInfo|
            #[trigger] has_gene(child@, x) && same_triple(x, y)
}

/// Re-enabling one connection changes flags only: every gene before and
/// after matches the same record up to its active flag.
#[verifier::rlimit(100)]
#[verifier::spinoff_prover]
proof fn lemma_quads_after_enable(
    pre: GenomeV,
    cur: GenomeV,
    lf: int,
    lt: usize,
    merged: Seq<GenomeInfo>,
)
    requires
        pre.nodes_ok(),
        0 <= lf < pre.nodes.len(),
        cur == pre.with_active(lf, lt, true),
        forall|x: GenomeInfo|
            #[trigger] has_gene(pre, x) ==> exists|k: int|
                0 <= k < merged.len() && same_quad(x, #[trigger] merged[k]),
        forall|k: int| 0 <= k < merged.len() ==> #[trigger] quad_present(pre, merged, k),
    ensures
        forall|x: GenomeInfo|
            #[trigger] has_gene(cur, x) ==> exists|k: int|
                0 <= k < merged.len() && same_quad(x, #[trigger] merged[k]),
        forall|k: int| 0 <= k < merged.len() ==> #[trigger] quad_present(cur, merged, k),
{
    assert(cur.nodes.len() == pre.nodes.len());
    assert forall|i: int, j: int|
        #![trigger cur.nodes[i].adj[j]]
        0 <= i < cur.nodes.len() && 0 <= j < cur.nodes[i].adj.len() implies 0 <= j < pre.nodes[
    i].adj.len() && same_quad(gene_at(cur, i, j), gene_at(pre, i, j)) by {
        assert(cur.nodes[i].global == pre.nodes[i].global);
        assert(cur.nodes[lf].global == pre.nodes[lf].global);
        if i == lf {
            assert(cur.nodes[i].adj.len() == pre.nodes[i].adj.len());
            assert(cur.nodes[i].adj[j].to == pre.nodes[i].adj[j].to);
            assert(cur.nodes[i].adj[j].inno_number == pre.nodes[i].adj[j].inno_number);
            assert(cur.nodes[i].adj[j].weight == pre.nodes[i].adj[j].weight);
        } else {
            assert(cur.nodes[i] == pre.nodes[i]);
        }
        let t = pre.nodes[i].adj[j].to as int;
        assert(0 <= t < pre.nodes.len());
        assert(cur.nodes[t].global == pre.nodes[t].global) by {
            if t != lf {
                assert(cur.nodes[t] == pre.nodes[t]);
            }
        }
    }
    assert forall|x: GenomeInfo|
        #[trigger] has_gene(cur, x) implies exists|k: int|
        0 <= k < merged.len() && same_quad(x, #[trigger] merged[k]) by {
        let (i, j) = choose|i: int, j: int|
            0 <= i < cur.nodes.len() && 0 <= j < cur.nodes[i].adj.len() && x == #[trigger] gene_at(
                cur,
                i,
                j,
            );
        let y = gene_at(pre, i, j);
        assert(has_gene(pre, y));
        let k = choose|k: int| 0 <= k < merged.len() && same_quad(y, #[trigger] merged[k]);
        assert(same_quad(x, merged[k]));
    }
    assert forall|k: int|
        0 <= k < merged.len() implies #[trigger] quad_present(cur, merged, k) by {
        assert(quad_present(pre, merged, k));
        let y = choose|y: GenomeInfo| #[trigger] has_gene(pre, y) && same_quad(y, merged[k]);
        let (i, j) = choose|i: int, j: int|
            0 <= i < pre.nodes.len() && 0 <= j < pre.nodes[i].adj.len() && y == #[trigger] gene_at(
                pre,
                i,
                j,
            );
        let x = gene_at(cur, i, j);
        assert(has_gene(cur, x));
        assert(same_quad(x, y));
    }
}

/// Two genomes agree on history: genes with the same innovation number have
/// the same endpoint global ids.
pub open spec fn aligned(gu: GenomeV, gv: GenomeV) -> bool {
    forall|x: GenomeInfo, y: GenomeInfo|
        #[trigger] has_gene(gu, x) && #[trigger] has_gene(gv, y) && x.innovation_number
            == y.innovation_number ==> x.from == y.from && x.to == y.to
}

impl Population {
    /// Crossover: walks both parents' innovation-sorted gene lists, inherits
    /// every gene of the fitter parent `u` — homologous genes take their
    /// weight and flag from a random parent, and a gene either parent
    /// disabled stays disabled three times out of four — and rebuilds a fresh
    /// child from the records. A flag inherited active from `v` alone is
    /// re-enabled afterwards, only where that provably keeps the child
    /// acyclic.
    #[verifier::rlimit(100)]
    #[verifier::spinoff_prover]
    pub fn breed(&self, u: &Genome, v: &Genome) -> (child: Genome)
        requires
            self.wf(),
            u.wf(),
            v.wf(),
            u.input_nodes == self.inputs,
            u.output_nodes == self.outputs,
            u.act == self.act,
            aligned(u@, v@),
        ensures
            child.wf(),
            child.input_nodes == self.inputs,
            child.output_nodes == self.outputs,
            child.act == self.act,
            (self.inputs + self.outputs + 1 <= usize::MAX / 2 && total_len(u@) <= usize::MAX / 2
                - (self.inputs + self.outputs + 1)) ==> bred_from(child, *u, *v),
    {
        let ga = u.flatten();
        let gb = v.flatten();
        let ghost a = ga@;
        let ghost b = gb@;
        let la = ga.len();
        let lb = gb.len();
        let mut merged: Vec<GenomeInfo> = Vec::new();
        let mut wishes: Vec<(usize, usize)> = Vec::new();
        let mut i: usize = 0;
        let mut j: usize = 0;
        while i < la
            invariant
                0 <= i <= la,
                0 <= j <= lb,
                la == a.len(),
                lb == b.len(),
                a == ga@,
                b == gb@,
                la <= CONN_CAP,
                u.wf(),
                v.wf(),
                aligned(u@, v@),
                is_flat(u@, a),
                is_flat(v@, b),
                merged@.len() == i,
                forall|k: int|
                    0 <= k < i ==> same_triple(#[trigger] merged@[k], a[k]) && (merged@[k].weight
                        == a[k].weight || gene_weight_of(v@, merged@[k].innovation_number, merged@[
                        k].weight)),
                forall|k1: int, k2: int|
                    0 <= k1 < k2 < merged@.len() ==> (#[trigger] merged@[k1]).innovation_number < (
                    #[trigger] merged@[k2]).innovation_number,
                forall|k: int|
                    0 <= k < merged@.len() && (i as int) < a.len() ==> (
                    #[trigger] merged@[k]).innovation_number < a[i as int].innovation_number,
                forall|k: int|
                    0 <= k < merged@.len() ==> exists|k2: int|
                        0 <= k2 < a.len() && (#[trigger] merged@[k]).from == a[k2].from && merged@[
                            k].to == a[k2].to && merged@[k].innovation_number == a[
                            k2].innovation_number,
                forall|k: int|
                    0 <= k < merged@.len() ==> (#[trigger] merged@[k]).from != merged@[k].to
                        && -WEIGHT_CAP <= merged@[k].weight <= WEIGHT_CAP,
                forall|k: int|
                    0 <= k < merged@.len() && (#[trigger] merged@[k]).active ==> exists|k2: int|
                        0 <= k2 < a.len() && (#[trigger] a[k2]).active && merged@[k].from == a[
                            k2].from && merged@[k].to == a[k2].to,
            decreases la - i, lb - j,
        {
            let gene_a = ga[i];
            let mut chosen = gene_a;
            let mut advance_b = false;
            if j < lb {
                let gene_b = gb[j];
                if gene_a.innovation_number == gene_b.innovation_number {
                    proof {
                        assert(has_gene(u@, a[i as int]));
                        assert(has_gene(v@, b[j as int]));
                        assert(a[i as int].from == b[j as int].from && a[i as int].to == b[
                        j as int].to);
                    }
                    let one_disabled = !(gene_a.active && gene_b.active);
                    let mut active: bool;
                    let weight: i64;
                    if rng::chance(1, 2) {
                        active = gene_a.active;
                        weight = gene_a.weight;
                    } else {
                        active = gene_b.active;
                        weight = gene_b.weight;
                    }
                    if one_disabled && rng::chance(3, 4) {
                        active = false;
                    }
                    chosen = GenomeInfo {
                        from: gene_a.from,
                        to: gene_a.to,
                        innovation_number: gene_a.innovation_number,
                        weight,
                        active,
                    };
                    advance_b = true;
                } else if gene_a.innovation_number > gene_b.innovation_number {
                    // a gene only the less fit parent carries is dropped
                    j += 1;
                    continue ;
                }
            }
            // the child's structural flag stays within the fitter parent's
            // active topology; a flag inherited active from `v` alone becomes
            // a re-enable wish handled after the rebuild
            let conservative = GenomeInfo {
                from: chosen.from,
                to: chosen.to,
                innovation_number: chosen.innovation_number,
                weight: chosen.weight,
                active: chosen.active && gene_a.active,
            };
            if chosen.active && !gene_a.active {
                wishes.push((chosen.from, chosen.to));
            }
            let ghost pre = merged@;
            merged.push(conservative);
            proof {
                assert(merged@[merged@.len() - 1] == conservative);
                assert forall|k: int|
                    0 <= k < i + 1 implies same_triple(#[trigger] merged@[k], a[k]) && (merged@[
                    k].weight == a[k].weight || gene_weight_of(
                    v@,
                    merged@[k].innovation_number,
                    merged@[k].weight,
                )) by {
                    if k < i as int {
                        assert(merged@[k] == pre[k]);
                    } else {
                        assert(merged@[k] == conservative);
                        if conservative.weight != a[k].weight {
                            assert(has_gene(v@, b[j as int]));
                            assert(b[j as int].innovation_number
                                == conservative.innovation_number);
                            assert(b[j as int].weight == conservative.weight);
                        }
                    }
                }
                assert forall|k: int|
                    0 <= k < merged@.len() implies exists|k2: int|
                    0 <= k2 < a.len() && (#[trigger] merged@[k]).from == a[k2].from && merged@[
                        k].to == a[k2].to && merged@[k].innovation_number == a[
                        k2].innovation_number by {
                    if k < pre.len() {
                        assert(merged@[k] == pre[k]);
                        let k2 = choose|k2: int|
                            0 <= k2 < a.len() && (#[trigger] pre[k]).from == a[k2].from && pre[
                                k].to == a[k2].to && pre[k].innovation_number == a[
                                k2].innovation_number;
                    } else {
                        assert(merged@[k].from == a[i as int].from && merged@[k].to == a[
                        i as int].to && merged@[k].innovation_number == a[
                        i as int].innovation_number);
                    }
                }
                assert forall|k: int|
                    0 <= k < merged@.len() && (#[trigger] merged@[k]).active implies exists|
                    k2: int,
                |
                    0 <= k2 < a.len() && (#[trigger] a[k2]).active && merged@[k].from == a[
                        k2].from && merged@[k].to == a[k2].to by {
                    if k < pre.len() {
                        assert(merged@[k] == pre[k]);
                        let k2 = choose|k2: int|
                            0 <= k2 < a.len() && (#[trigger] a[k2]).active && pre[k].from == a[
                                k2].from && pre[k].to == a[k2].to;
                    } else {
                        assert(a[i as int].active);
                        assert(merged@[k].from == a[i as int].from && merged@[k].to == a[
                        i as int].to);
                    }
                }
            }
            i += 1;
            if advance_b {
                j += 1;
            }
        }
        proof {
            // pairs never repeat: equal pairs would force equal innovation
            // numbers through the fitter parent's gene list
            assert forall|k1: int, k2: int|
                0 <= k1 < k2 < merged@.len() implies !((#[trigger] merged@[k1]).from == (
            #[trigger] merged@[k2]).from && merged@[k1].to == merged@[k2].to) by {
                if merged@[k1].from == merged@[k2].from && merged@[k1].to == merged@[k2].to {
                    let p1 = choose|p1: int|
                        0 <= p1 < a.len() && (#[trigger] merged@[k1]).from == a[p1].from && merged@[
                            k1].to == a[p1].to && merged@[k1].innovation_number == a[
                            p1].innovation_number;
                    let p2 = choose|p2: int|
                        0 <= p2 < a.len() && (#[trigger] merged@[k2]).from == a[p2].from && merged@[
                            k2].to == a[p2].to && merged@[k2].innovation_number == a[
                            p2].innovation_number;
                    if p1 != p2 {
                        assert(!(a[p1].from == a[p2].from && a[p1].to == a[p2].to));
                    }
                }
            }
            assert(genes_wf(merged@));
            assert forall|k: int|
                0 <= k < merged@.len() && (#[trigger] merged@[k]).active implies exists|
                i2: int,
                j2: int,
            |
                0 <= i2 < u@.nodes.len() && 0 <= j2 < u@.nodes[i2].adj.len() && (#[trigger] u@
                    .nodes[i2].adj[j2]).active && u@.nodes[i2].global == merged@[k].from && u@
                    .nodes[u@.nodes[i2].adj[j2].to as int].global == merged@[k].to by {
                let k2 = choose|k2: int|
                    0 <= k2 < a.len() && (#[trigger] a[k2]).active && merged@[k].from == a[
                        k2].from && merged@[k].to == a[k2].to;
                assert(has_gene(u@, a[k2]));
                let (i2, j2) = choose|i2: int, j2: int|
                    0 <= i2 < u@.nodes.len() && 0 <= j2 < u@.nodes[i2].adj.len() && a[k2]
                        == #[trigger] gene_at(u@, i2, j2);
                assert(u@.nodes[i2].adj[j2].active == a[k2].active);
                assert(u@.nodes[i2].global == a[k2].from);
                assert(u@.nodes[u@.nodes[i2].adj[j2].to as int].global == a[k2].to);
            }
            lemma_active_pairs_acyclic(*u, merged@);
        }
        let base_n = self.inputs + self.outputs + 1;
        if base_n > usize::MAX / 2 || merged.len() > usize::MAX / 2 - base_n {
            // out of reach at the genome size cap; an empty genome keeps the
            // layout
            return Genome::new(self.inputs, self.outputs, self.act);
        }
        let mut child = Genome::un_flatten(&merged, self.inputs, self.outputs, self.act);
        proof {
            assert forall|x: GenomeInfo|
                #[trigger] has_gene(child@, x) implies exists|k: int|
                0 <= k < merged@.len() && same_quad(x, #[trigger] merged@[k]) by {
                let (i2, j2) = choose|i2: int, j2: int|
                    0 <= i2 < child@.nodes.len() && 0 <= j2 < child@.nodes[i2].adj.len() && x
                        == #[trigger] gene_at(child@, i2, j2);
                assert(merged@.contains(gene_at(child@, i2, j2)));
                let k = choose|k: int| 0 <= k < merged@.len() && merged@[k] == x;
                assert(same_quad(x, merged@[k]));
            }
            assert forall|k: int|
                0 <= k < merged@.len() implies #[trigger] quad_present(child@, merged@, k) by {
                assert(has_gene(child@, merged@[k]));
                assert(same_quad(merged@[k], merged@[k]));
            }
        }
        // grant the re-enable wishes that keep the child acyclic
        let mut w: usize = 0;
        while w < wishes.len()
            invariant
                child.wf(),
                child.input_nodes == self.inputs,
                child.output_nodes == self.outputs,
                child.act == self.act,
                0 <= w <= wishes@.len(),
                forall|x: GenomeInfo|
                    #[trigger] has_gene(child@, x) ==> exists|k: int|
                        0 <= k < merged@.len() && same_quad(x, #[trigger] merged@[k]),
                forall|k: int| 0 <= k < merged@.len() ==> #[trigger] quad_present(
                    child@,
                    merged@,
                    k,
                ),
            decreases wishes@.len() - w,
        {
            let (fg, tg) = wishes[w];
            let lf = child.find_node(fg);
            let lt = child.find_node(tg);
            match (lf, lt) {
                (Some(lf), Some(lt)) => {
                    if !child.cycle_probe(lf, lt, true) {
                        let ghost pre_c = child@;
                        proof {
                            assert(pre_c.nodes_ok());
                        }
                        child.enable_edge(lf, lt);
                        proof {
                            lemma_quads_after_enable(pre_c, child@, lf as int, lt, merged@);
                        }
                    }
                },
                _ => {},
            }
            w += 1;
        }
        proof {
            let base_n = self.inputs + self.outputs + 1;
            if base_n <= usize::MAX / 2 && total_len(u@) <= usize::MAX / 2 - base_n {
                assert forall|x: GenomeInfo|
                    #[trigger] has_gene(child@, x) implies exists|y: GenomeInfo|
                    #[trigger] has_gene(u@, y) && same_triple(x, y) && (x.weight == y.weight
                        || gene_weight_of(v@, x.innovation_number, x.weight)) by {
                    let k = choose|k: int|
                        0 <= k < merged@.len() && same_quad(x, #[trigger] merged@[k]);
                    assert(same_triple(merged@[k], a[k]) && (merged@[k].weight == a[k].weight
                        || gene_weight_of(v@, merged@[k].innovation_number, merged@[k].weight)));
                    assert(has_gene(u@, a[k]));
                    assert(same_triple(x, a[k]));
                }
                assert forall|y: GenomeInfo|
                    #[trigger] has_gene(u@, y) implies exists|x: GenomeInfo|
                    #[trigger] has_gene(child@, x) && same_triple(x, y) by {
                    let (i2, j2) = choose|i2: int, j2: int|
                        0 <= i2 < u@.nodes.len() && 0 <= j2 < u@.nodes[i2].adj.len() && y
                            == #[trigger] gene_at(u@, i2, j2);
                    assert(a.contains(gene_at(u@, i2, j2)));
                    let k = choose|k: int| 0 <= k < a.len() && a[k] == y;
                    assert(same_triple(merged@[k], a[k]));
                    assert(quad_present(child@, merged@, k));
                    let x = choose|x: GenomeInfo|
                        #[trigger] has_gene(child@, x) && same_quad(x, merged@[k]);
                    assert(same_triple(x, y));
                }
                assert(bred_from(child, *u, *v));
            }
        }
        child
    }
}


/// Sum of an offspring-quota vector prefix.
pub open spec fn quota_sum(q: Seq<usize>, k: int) -> int
    decreases k,
{
    if k <= 0 {
        0
    } else {
        quota_sum(q, k - 1) + q[k - 1]
    }
}

pub proof fn lemma_quota_sum_update(q: Seq<usize>, k: int, idx: int, v: usize)
    requires
        0 <= idx < q.len(),
        0 <= k <= q.len(),
    ensures
        quota_sum(q.update(idx, v), k) == quota_sum(q, k) + (if idx < k {
            v - q[idx]
        } else {
            0int
        }),
    decreases k,
{
    if k > 0 {
        lemma_quota_sum_update(q, k - 1, idx, v);
    }
}

pub proof fn lemma_quota_sum_lower(q: Seq<usize>, k: int, idx: int)
    requires
        0 <= idx < k <= q.len(),
    ensures
        quota_sum(q, k) >= q[idx],
        quota_sum(q, k) >= 0,
    decreases k,
{
    if k > 0 {
        lemma_quota_sum_nonneg(q, k - 1);
        if idx < k - 1 {
            lemma_quota_sum_lower(q, k - 1, idx);
        }
    }
}

pub proof fn lemma_quota_sum_nonneg(q: Seq<usize>, k: int)
    requires
        0 <= k <= q.len(),
    ensures
        quota_sum(q, k) >= 0,
    decreases k,
{
    if k > 0 {
        lemma_quota_sum_nonneg(q, k - 1);
    }
}

pub proof fn lemma_quota_sum_push(q: Seq<usize>, k: int, v: usize)
    requires
        0 <= k <= q.len(),
    ensures
        quota_sum(q.push(v), k) == quota_sum(q, k),
    decreases k,
{
    if k > 0 {
        lemma_quota_sum_push(q, k - 1, v);
    }
}

/// Index `v` occurs somewhere in the clusters.
pub open spec fn placed_in(cl: Seq<Species>, v: usize) -> bool {
    exists|si: int, k: int|
        #![trigger cl[si].organisms@[k]]
        0 <= si < cl.len() && 0 <= k < cl[si].organisms@.len() && cl[si].organisms@[k] == v
}

/// Index `v` occurs in one of the clusters from position `lo` on.
pub open spec fn placed_from(cl: Seq<Species>, lo: int, v: usize) -> bool {
    exists|si: int, k: int|
        #![trigger cl[si].organisms@[k]]
        lo <= si < cl.len() && 0 <= k < cl[si].organisms@.len() && cl[si].organisms@[k] == v
}

/// No index occurs twice across (or within) the clusters.
pub open spec fn distinct_members(cl: Seq<Species>) -> bool {
    forall|si1: int, k1: int, si2: int, k2: int|
        #![trigger cl[si1].organisms@[k1], cl[si2].organisms@[k2]]
        0 <= si1 < cl.len() && 0 <= k1 < cl[si1].organisms@.len() && 0 <= si2 < cl.len() && 0 <= k2
            < cl[si2].organisms@.len() && (si1 != si2 || k1 != k2) ==> cl[si1].organisms@[k1] != cl[
            si2].organisms@[k2]
}

/// Nothing in the clusters from `lo` on collides with anything in `sp`.
pub open spec fn cross_distinct(sp: Seq<Species>, cl: Seq<Species>, lo: int) -> bool {
    forall|si1: int, k1: int, si2: int, k2: int|
        #![trigger sp[si1].organisms@[k1], cl[si2].organisms@[k2]]
        0 <= si1 < sp.len() && 0 <= k1 < sp[si1].organisms@.len() && lo <= si2 < cl.len() && 0
            <= k2 < cl[si2].organisms@.len() ==> sp[si1].organisms@[k1] != cl[si2].organisms@[k2]
}

/// Appending `v` to one cluster extends coverage to `v` and keeps members
/// distinct, provided every present member is below `v`.
proof fn lemma_placed_after_push(pre: Seq<Species>, cur: Seq<Species>, h: int, v: usize, idx: int)
    requires
        0 <= h < pre.len(),
        cur.len() == pre.len(),
        cur[h].organisms@ == pre[h].organisms@.push(v),
        forall|si: int| 0 <= si < cur.len() && si != h ==> #[trigger] cur[si] == pre[si],
        forall|v2: usize| (v2 as int) < idx ==> #[trigger] placed_in(pre, v2),
        distinct_members(pre),
        forall|si: int, k: int|
            #![trigger pre[si].organisms@[k]]
            0 <= si < pre.len() && 0 <= k < pre[si].organisms@.len() ==> (
            pre[si].organisms@[k] as int) < idx,
        v as int == idx,
    ensures
        forall|v2: usize| (v2 as int) < idx + 1 ==> #[trigger] placed_in(cur, v2),
        distinct_members(cur),
        forall|si: int, k: int|
            #![trigger cur[si].organisms@[k]]
            0 <= si < cur.len() && 0 <= k < cur[si].organisms@.len() ==> (
            cur[si].organisms@[k] as int) < idx + 1,
{
    assert forall|si: int, k: int|
        #![trigger cur[si].organisms@[k]]
        0 <= si < cur.len() && 0 <= k < cur[si].organisms@.len() implies (
    cur[si].organisms@[k] as int) < idx + 1 && cur[si].organisms@[k] == (if si == h && k == pre[
        h].organisms@.len() {
        v
    } else {
        pre[si].organisms@[k]
    }) by {
        if si == h {
            if k < pre[h].organisms@.len() {
                assert(cur[si].organisms@[k] == pre[si].organisms@[k]);
            }
        } else {
            assert(cur[si] == pre[si]);
        }
    }
    assert forall|v2: usize| (v2 as int) < idx + 1 implies #[trigger] placed_in(cur, v2) by {
        if (v2 as int) < idx {
            assert(placed_in(pre, v2));
            let (si, k) = choose|si: int, k: int|
                #![trigger pre[si].organisms@[k]]
                0 <= si < pre.len() && 0 <= k < pre[si].organisms@.len() && pre[si].organisms@[k]
                    == v2;
            assert(cur[si].organisms@[k] == v2);
        } else {
            assert(cur[h].organisms@[pre[h].organisms@.len() as int] == v);
        }
    }
    assert forall|si1: int, k1: int, si2: int, k2: int|
        #![trigger cur[si1].organisms@[k1], cur[si2].organisms@[k2]]
        0 <= si1 < cur.len() && 0 <= k1 < cur[si1].organisms@.len() && 0 <= si2 < cur.len() && 0
            <= k2 < cur[si2].organisms@.len() && (si1 != si2 || k1 != k2) implies cur[
    si1].organisms@[k1] != cur[si2].organisms@[k2] by {
        let new1 = si1 == h && k1 == pre[h].organisms@.len();
        let new2 = si2 == h && k2 == pre[h].organisms@.len();
        if new1 && !new2 {
            assert((cur[si2].organisms@[k2] as int) < idx);
        } else if !new1 && new2 {
            assert((cur[si1].organisms@[k1] as int) < idx);
        } else if !new1 && !new2 {
            assert(cur[si1].organisms@[k1] == pre[si1].organisms@[k1]);
            assert(cur[si2].organisms@[k2] == pre[si2].organisms@[k2]);
        }
    }
}

/// A fresh one-member cluster for `v` extends coverage to `v` and keeps
/// members distinct, provided every present member is below `v`.
proof fn lemma_placed_after_grow(pre: Seq<Species>, cur: Seq<Species>, v: usize, idx: int)
    requires
        cur.len() == pre.len() + 1,
        cur[cur.len() - 1].organisms@ =~= seq![v],
        forall|si: int| 0 <= si < pre.len() ==> #[trigger] cur[si] == pre[si],
        forall|v2: usize| (v2 as int) < idx ==> #[trigger] placed_in(pre, v2),
        distinct_members(pre),
        forall|si: int, k: int|
            #![trigger pre[si].organisms@[k]]
            0 <= si < pre.len() && 0 <= k < pre[si].organisms@.len() ==> (
            pre[si].organisms@[k] as int) < idx,
        v as int == idx,
    ensures
        forall|v2: usize| (v2 as int) < idx + 1 ==> #[trigger] placed_in(cur, v2),
        distinct_members(cur),
        forall|si: int, k: int|
            #![trigger cur[si].organisms@[k]]
            0 <= si < cur.len() && 0 <= k < cur[si].organisms@.len() ==> (
            cur[si].organisms@[k] as int) < idx + 1,
{
    assert forall|si: int, k: int|
        #![trigger cur[si].organisms@[k]]
        0 <= si < cur.len() && 0 <= k < cur[si].organisms@.len() implies (
    cur[si].organisms@[k] as int) < idx + 1 && cur[si].organisms@[k] == (if si == pre.len() {
        v
    } else {
        pre[si].organisms@[k]
    }) by {
        if si < pre.len() {
            assert(cur[si] == pre[si]);
        } else {
            assert(cur[si].organisms@ =~= seq![v]);
            assert(k == 0);
        }
    }
    assert forall|v2: usize| (v2 as int) < idx + 1 implies #[trigger] placed_in(cur, v2) by {
        if (v2 as int) < idx {
            assert(placed_in(pre, v2));
            let (si, k) = choose|si: int, k: int|
                #![trigger pre[si].organisms@[k]]
                0 <= si < pre.len() && 0 <= k < pre[si].organisms@.len() && pre[si].organisms@[k]
                    == v2;
            assert(cur[si].organisms@[k] == v2);
        } else {
            assert(cur[pre.len() as int].organisms@[0] == v);
        }
    }
    assert forall|si1: int, k1: int, si2: int, k2: int|
        #![trigger cur[si1].organisms@[k1], cur[si2].organisms@[k2]]
        0 <= si1 < cur.len() && 0 <= k1 < cur[si1].organisms@.len() && 0 <= si2 < cur.len() && 0
            <= k2 < cur[si2].organisms@.len() && (si1 != si2 || k1 != k2) implies cur[
    si1].organisms@[k1] != cur[si2].organisms@[k2] by {
        if si1 == pre.len() && si2 != pre.len() {
            assert((cur[si2].organisms@[k2] as int) < idx);
        } else if si1 != pre.len() && si2 == pre.len() {
            assert((cur[si1].organisms@[k1] as int) < idx);
        } else if si1 != pre.len() && si2 != pre.len() {
            assert(cur[si1].organisms@[k1] == pre[si1].organisms@[k1]);
            assert(cur[si2].organisms@[k2] == pre[si2].organisms@[k2]);
        }
    }
}

impl Population {
    /// Clusters a generation: one seed species per surviving cluster of the
    /// previous generation, joined by the first leader within the threshold;
    /// an incompatible genome founds its own species. Empty clusters are
    /// dropped and every cluster draws a fresh leader uniformly from its
    /// members. Every genome lands in exactly one returned cluster.
    pub fn speciate(&self, new_gen: &Vec<Genome>) -> (sp: Vec<Species>)
        requires
            self.wf(),
            forall|k: int|
                0 <= k < new_gen@.len() ==> {
                    let g = #[trigger] new_gen@[k];
                    g.wf() && g.input_nodes == self.inputs && g.output_nodes == self.outputs
                        && g.act == self.act
                },
        ensures
            forall|si: int|
                0 <= si < sp@.len() ==> {
                    let s = #[trigger] sp@[si];
                    &&& s.organisms@.len() > 0
                    &&& s.organisms@.contains(s.leader)
                    &&& forall|k: int|
                        0 <= k < s.organisms@.len() ==> (#[trigger] s.organisms@[k] as int)
                            < new_gen@.len()
                },
            new_gen@.len() > 0 ==> sp@.len() > 0,
            forall|v: usize| (v as int) < new_gen@.len() ==> #[trigger] placed_in(sp@, v),
            distinct_members(sp@),
    {
        let n = new_gen.len();
        let mut groups: Vec<Species> = Vec::new();
        // leaders: true picks from the current population, false from the
        // incoming generation
        let mut leaders: Vec<(bool, usize)> = Vec::new();
        let mut li: usize = 0;
        while li < self.previous_gen.len()
            invariant
                self.wf(),
                0 <= li <= self.previous_gen@.len(),
                groups@.len() == leaders@.len(),
                forall|k: int|
                    0 <= k < groups@.len() ==> (#[trigger] groups@[k]).organisms@.len() == 0,
                forall|k: int|
                    0 <= k < leaders@.len() ==> (#[trigger] leaders@[k]).0 && (
                    leaders@[k].1 as int) < self.population@.len(),
            decreases self.previous_gen@.len() - li,
        {
            let s = &self.previous_gen[li];
            if s.organisms.len() > 0 && s.leader < self.population.len() {
                leaders.push((true, s.leader));
                groups.push(Species::new());
            }
            li += 1;
        }
        let mut idx: usize = 0;
        while idx < n
            invariant
                self.wf(),
                n == new_gen@.len(),
                forall|k: int|
                    0 <= k < new_gen@.len() ==> {
                        let g = #[trigger] new_gen@[k];
                        g.wf() && g.input_nodes == self.inputs && g.output_nodes == self.outputs
                            && g.act == self.act
                    },
                0 <= idx <= n,
                groups@.len() == leaders@.len(),
                forall|k: int|
                    0 <= k < leaders@.len() ==> ((#[trigger] leaders@[k]).0 ==> (
                    leaders@[k].1 as int) < self.population@.len()) && (!leaders@[k].0 ==> (
                    leaders@[k].1 as int) < n),
                forall|si: int, k: int|
                    #![trigger groups@[si].organisms@[k]]
                    0 <= si < groups@.len() && 0 <= k < groups@[si].organisms@.len() ==> (
                    groups@[si].organisms@[k] as int) < idx,
                forall|v: usize| (v as int) < idx ==> #[trigger] placed_in(groups@, v),
                distinct_members(groups@),
            decreases n - idx,
        {
            let mut hit: Option<usize> = None;
            let mut t: usize = 0;
            while t < leaders.len()
                invariant
                    self.wf(),
                    n == new_gen@.len(),
                    forall|k: int|
                        0 <= k < new_gen@.len() ==> {
                            let g = #[trigger] new_gen@[k];
                            g.wf() && g.input_nodes == self.inputs && g.output_nodes
                                == self.outputs && g.act == self.act
                        },
                    0 <= idx < n,
                    0 <= t <= leaders@.len(),
                    groups@.len() == leaders@.len(),
                    forall|k: int|
                        0 <= k < leaders@.len() ==> ((#[trigger] leaders@[k]).0 ==> (
                        leaders@[k].1 as int) < self.population@.len()) && (!leaders@[k].0 ==> (
                        leaders@[k].1 as int) < n),
                    match hit {
                        Option::None => true,
                        Option::Some(h) => (h as int) < groups@.len(),
                    },
                decreases leaders@.len() - t,
            {
                let (from_pop, lix) = leaders[t];
                let d = if from_pop {
                    self.delta(&self.population[lix], &new_gen[idx])
                } else {
                    self.delta(&new_gen[lix], &new_gen[idx])
                };
                match d {
                    Some(x) => {
                        if x < 3000 {
                            hit = Some(t);
                        }
                    },
                    None => {},
                }
                match hit {
                    Some(_) => {
                        break ;
                    },
                    None => {},
                }
                t += 1;
            }
            let ghost pre_g = groups@;
            match hit {
                Some(h) => {
                    let grp = &mut groups[h];
                    grp.organisms.push(idx);
                    proof {
                        assert(groups@[h as int].organisms@ == pre_g[h as int].organisms@.push(
                            idx,
                        ));
                        assert forall|si: int|
                            0 <= si < groups@.len() && si != h implies #[trigger] groups@[si]
                            == pre_g[si] by {}
                        lemma_placed_after_push(pre_g, groups@, h as int, idx, idx as int);
                    }
                },
                None => {
                    leaders.push((false, idx));
                    let mut fresh = Species::new();
                    fresh.organisms.push(idx);
                    groups.push(fresh);
                    proof {
                        assert(groups@.len() == pre_g.len() + 1);
                        assert(groups@[groups@.len() - 1].organisms@ =~= seq![idx]);
                        assert forall|si: int| 0 <= si < pre_g.len() implies #[trigger] groups@[si]
                            == pre_g[si] by {}
                        lemma_placed_after_grow(pre_g, groups@, idx, idx as int);
                    }
                },
            }
            idx += 1;
        }
        // drop empty clusters, then draw each leader from its members
        proof {
            assert forall|v: usize| (v as int) < n implies placed_from(groups@, 0, v) by {
                assert(placed_in(groups@, v));
                let (si, k) = choose|si: int, k: int|
                    #![trigger groups@[si].organisms@[k]]
                    0 <= si < groups@.len() && 0 <= k < groups@[si].organisms@.len() && groups@[
                        si].organisms@[k] == v;
            }
        }
        let mut sp: Vec<Species> = Vec::new();
        let mut gi: usize = 0;
        while gi < groups.len()
            invariant
                0 <= gi <= groups@.len(),
                n == new_gen@.len(),
                forall|si: int, k: int|
                    #![trigger groups@[si].organisms@[k]]
                    0 <= si < groups@.len() && 0 <= k < groups@[si].organisms@.len() ==> (
                    groups@[si].organisms@[k] as int) < n,
                distinct_members(groups@),
                forall|v: usize|
                    (v as int) < n ==> #[trigger] placed_in(sp@, v) || placed_from(
                        groups@,
                        gi as int,
                        v,
                    ),
                distinct_members(sp@),
                cross_distinct(sp@, groups@, gi as int),
                forall|si: int|
                    0 <= si < sp@.len() ==> {
                        let s = #[trigger] sp@[si];
                        &&& s.organisms@.len() > 0
                        &&& s.organisms@.contains(s.leader)
                        &&& forall|k: int|
                            0 <= k < s.organisms@.len() ==> (#[trigger] s.organisms@[k] as int) < n
                    },
            decreases groups@.len() - gi,
        {
            let glen = groups[gi].organisms.len();
            if glen > 0 {
                let pick = rng::rand_usize(0, glen - 1);
                let leader = groups[gi].organisms[pick];
                let mut member_list: Vec<usize> = Vec::new();
                let mut mi: usize = 0;
                while mi < glen
                    invariant
                        0 <= gi < groups@.len(),
                        glen == groups@[gi as int].organisms@.len(),
                        n == new_gen@.len(),
                        forall|si: int, k: int|
                            #![trigger groups@[si].organisms@[k]]
                            0 <= si < groups@.len() && 0 <= k < groups@[si].organisms@.len() ==> (
                            groups@[si].organisms@[k] as int) < n,
                        0 <= mi <= glen,
                        member_list@.len() == mi,
                        forall|k: int|
                            0 <= k < mi ==> #[trigger] member_list@[k] == groups@[
                                gi as int].organisms@[k],
                    decreases glen - mi,
                {
                    member_list.push(groups[gi].organisms[mi]);
                    mi += 1;
                }
                proof {
                    assert(member_list@[pick as int] == leader);
                    assert(member_list@.contains(leader));
                }
                let ghost pre_sp = sp@;
                sp.push(Species { organisms: member_list, leader });
                proof {
                    let last = sp@.len() - 1;
                    assert(sp@[last].organisms@ =~= groups@[gi as int].organisms@);
                    assert forall|si: int| 0 <= si < pre_sp.len() implies #[trigger] sp@[si]
                        == pre_sp[si] by {}
                    assert forall|si: int|
                        0 <= si < sp@.len() implies {
                        let s = #[trigger] sp@[si];
                        &&& s.organisms@.len() > 0
                        &&& s.organisms@.contains(s.leader)
                        &&& forall|k: int|
                            0 <= k < s.organisms@.len() ==> (#[trigger] s.organisms@[k] as int) < n
                    } by {
                        if si == last {
                            assert(sp@[si].organisms@.contains(leader));
                        }
                    }
                    assert forall|v: usize|
                        (v as int) < n implies #[trigger] placed_in(sp@, v) || placed_from(
                        groups@,
                        gi as int + 1,
                        v,
                    ) by {
                        if placed_in(pre_sp, v) {
                            let (si, k) = choose|si: int, k: int|
                                #![trigger pre_sp[si].organisms@[k]]
                                0 <= si < pre_sp.len() && 0 <= k < pre_sp[si].organisms@.len()
                                    && pre_sp[si].organisms@[k] == v;
                            assert(sp@[si].organisms@[k] == v);
                        } else if placed_from(groups@, gi as int, v) {
                            let (si, k) = choose|si: int, k: int|
                                #![trigger groups@[si].organisms@[k]]
                                gi as int <= si < groups@.len() && 0 <= k < groups@[
                                    si].organisms@.len() && groups@[si].organisms@[k] == v;
                            if si == gi as int {
                                assert(sp@[last].organisms@[k] == v);
                            }
                        }
                    }
                    assert forall|si1: int, k1: int, si2: int, k2: int|
                        #![trigger sp@[si1].organisms@[k1], sp@[si2].organisms@[k2]]
                        0 <= si1 < sp@.len() && 0 <= k1 < sp@[si1].organisms@.len() && 0 <= si2
                            < sp@.len() && 0 <= k2 < sp@[si2].organisms@.len() && (si1 != si2 || k1
                            != k2) implies sp@[si1].organisms@[k1] != sp@[si2].organisms@[k2] by {
                        if si1 == last && si2 == last {
                            assert(sp@[si1].organisms@[k1] == groups@[gi as int].organisms@[k1]);
                            assert(sp@[si2].organisms@[k2] == groups@[gi as int].organisms@[k2]);
                        } else if si1 == last {
                            assert(sp@[si1].organisms@[k1] == groups@[gi as int].organisms@[k1]);
                            assert(sp@[si2].organisms@[k2] == pre_sp[si2].organisms@[k2]);
                        } else if si2 == last {
                            assert(sp@[si2].organisms@[k2] == groups@[gi as int].organisms@[k2]);
                            assert(sp@[si1].organisms@[k1] == pre_sp[si1].organisms@[k1]);
                        } else {
                            assert(sp@[si1].organisms@[k1] == pre_sp[si1].organisms@[k1]);
                            assert(sp@[si2].organisms@[k2] == pre_sp[si2].organisms@[k2]);
                        }
                    }
                    assert forall|si1: int, k1: int, si2: int, k2: int|
                        #![trigger sp@[si1].organisms@[k1], groups@[si2].organisms@[k2]]
                        0 <= si1 < sp@.len() && 0 <= k1 < sp@[si1].organisms@.len() && gi as int
                            + 1 <= si2 < groups@.len() && 0 <= k2 < groups@[si2].organisms@.len()
                            implies sp@[si1].organisms@[k1] != groups@[si2].organisms@[k2] by {
                        if si1 == last {
                            assert(sp@[si1].organisms@[k1] == groups@[gi as int].organisms@[k1]);
                        } else {
                            assert(sp@[si1].organisms@[k1] == pre_sp[si1].organisms@[k1]);
                        }
                    }
                }
            } else {
                proof {
                    assert forall|v: usize|
                        (v as int) < n implies #[trigger] placed_in(sp@, v) || placed_from(
                        groups@,
                        gi as int + 1,
                        v,
                    ) by {
                        if !placed_in(sp@, v) && placed_from(groups@, gi as int, v) {
                            let (si, k) = choose|si: int, k: int|
                                #![trigger groups@[si].organisms@[k]]
                                gi as int <= si < groups@.len() && 0 <= k < groups@[
                                    si].organisms@.len() && groups@[si].organisms@[k] == v;
                            assert(si != gi as int);
                        }
                    }
                }
            }
            gi += 1;
        }
        proof {
            assert forall|v: usize| (v as int) < n implies #[trigger] placed_in(sp@, v) by {
                if placed_from(groups@, groups@.len() as int, v) {
                    let (si, k) = choose|si: int, k: int|
                        #![trigger groups@[si].organisms@[k]]
                        groups@.len() as int <= si < groups@.len() && 0 <= k < groups@[
                            si].organisms@.len() && groups@[si].organisms@[k] == v;
                }
            }
            if n > 0 {
                assert(placed_in(sp@, 0usize));
                let (si, k) = choose|si: int, k: int|
                    #![trigger sp@[si].organisms@[k]]
                    0 <= si < sp@.len() && 0 <= k < sp@[si].organisms@.len() && sp@[
                        si].organisms@[k] == 0usize;
            }
        }
        sp
    }

    /// Builds one cluster's share of the next generation: members ranked by
    /// fitness, the champion of a large cluster cloned unchanged, the rest
    /// bred from two parents drawn from the fitter part of the ranking.
    #[verifier::rlimit(100)]
    #[verifier::spinoff_prover]
    pub fn create_species(
        &self,
        members: &Vec<usize>,
        fitness: &Vec<u64>,
        number_offspring: usize,
    ) -> (out: Vec<Genome>)
        requires
            self.wf(),
            members@.len() == fitness@.len(),
            members@.len() > 0,
            forall|k: int| 0 <= k < members@.len() ==> (#[trigger] members@[k] as int) < self.population@.len(),
            forall|k1: int, k2: int|
                0 <= k1 < members@.len() && 0 <= k2 < members@.len() ==> aligned(
                    self.population@[#[trigger] members@[k1] as int]@,
                    self.population@[#[trigger] members@[k2] as int]@,
                ),
        ensures
            out@.len() == number_offspring,
            forall|k: int|
                0 <= k < out@.len() ==> {
                    let g = #[trigger] out@[k];
                    g.wf() && g.input_nodes == self.inputs && g.output_nodes == self.outputs
                        && g.act == self.act
                },
            members@.len() > 5 && number_offspring > 0 ==> exists|m: int|
                {
                    &&& 0 <= m < members@.len()
                    &&& (forall|m2: int|
                        0 <= m2 < fitness@.len() ==> fitness@[m] >= #[trigger] fitness@[m2])
                    &&& ((self.inputs + self.outputs + 1 <= usize::MAX / 2 && total_len(
                        #[trigger] self.population@[members@[m] as int]@,
                    ) <= usize::MAX / 2 - (self.inputs + self.outputs + 1)) ==> genes_match(
                        out@[0],
                        self.population@[members@[m] as int],
                    ))
                },
            forall|k: int|
                (if members@.len() > 5 && number_offspring > 0 {
                    1int
                } else {
                    0int
                }) <= k < out@.len() ==> exists|pa: int, pb: int|
                    #![trigger members@[pa], members@[pb]]
                    {
                        &&& 0 <= pa < members@.len()
                        &&& 0 <= pb < members@.len()
                        &&& fitness@[pa] >= fitness@[pb]
                        &&& ((self.inputs + self.outputs + 1 <= usize::MAX / 2 && total_len(
                            self.population@[members@[pa] as int]@,
                        ) <= usize::MAX / 2 - (self.inputs + self.outputs + 1)) ==> bred_from(
                            #[trigger] out@[k],
                            self.population@[members@[pa] as int],
                            self.population@[members@[pb] as int],
                        ))
                    },
    {
        let count = members.len();
        // rank member positions by fitness, best first
        let mut best: Vec<(u64, usize)> = Vec::new();
        let mut k: usize = 0;
        while k < count
            invariant
                0 <= k <= count,
                best@.len() == k,
                count == members@.len(),
                count == fitness@.len(),
                forall|k2: int|
                    0 <= k2 < k ==> ((#[trigger] best@[k2]).1 as int) < count && best@[k2].0
                        == fitness@[best@[k2].1 as int],
                forall|m2: int| 0 <= m2 < k ==> #[trigger] ranked_somewhere(best@, m2),
            decreases count - k,
        {
            let ghost pre_b = best@;
            best.push((fitness[k], k));
            proof {
                assert forall|m2: int| 0 <= m2 < k + 1 implies #[trigger] ranked_somewhere(
                    best@,
                    m2,
                ) by {
                    if m2 < k as int {
                        assert(ranked_somewhere(pre_b, m2));
                        let k2 = choose|k2: int|
                            0 <= k2 < pre_b.len() && ((#[trigger] pre_b[k2]).1 as int) == m2;
                        assert(best@[k2].1 as int == m2);
                    } else {
                        assert(best@[best@.len() - 1].1 as int == m2);
                    }
                }
            }
            k += 1;
        }
        let mut ii: usize = 1;
        while ii < count
            invariant
                1 <= ii <= count || count == 0,
                best@.len() == count,
                count == members@.len(),
                count == fitness@.len(),
                forall|k2: int|
                    0 <= k2 < count ==> ((#[trigger] best@[k2]).1 as int) < count && best@[k2].0
                        == fitness@[best@[k2].1 as int],
                forall|m2: int| 0 <= m2 < count ==> #[trigger] ranked_somewhere(best@, m2),
                forall|a2: int, b2: int|
                    0 <= a2 < b2 < ii ==> (#[trigger] best@[a2]).0 >= (#[trigger] best@[b2]).0,
            decreases count - ii,
        {
            let mut jj: usize = ii;
            while jj > 0 && best[jj - 1].0 < best[jj].0
                invariant
                    0 <= jj <= ii < count,
                    best@.len() == count,
                    count == members@.len(),
                    count == fitness@.len(),
                    forall|k2: int|
                        0 <= k2 < count ==> ((#[trigger] best@[k2]).1 as int) < count && best@[
                            k2].0 == fitness@[best@[k2].1 as int],
                    forall|m2: int| 0 <= m2 < count ==> #[trigger] ranked_somewhere(best@, m2),
                    forall|a2: int, b2: int|
                        0 <= a2 < b2 <= ii && b2 != jj ==> (#[trigger] best@[a2]).0 >= (
                        #[trigger] best@[b2]).0,
                    forall|a2: int|
                        jj < a2 <= ii ==> (best@[jj as int]).0 >= (#[trigger] best@[a2]).0,
                decreases jj,
            {
                let ghost pre_b = best@;
                let hi = best[jj];
                let lo = best[jj - 1];
                best.set(jj - 1, hi);
                best.set(jj, lo);
                proof {
                    assert forall|m2: int| 0 <= m2 < count implies #[trigger] ranked_somewhere(
                        best@,
                        m2,
                    ) by {
                        assert(ranked_somewhere(pre_b, m2));
                        let k2 = choose|k2: int|
                            0 <= k2 < pre_b.len() && ((#[trigger] pre_b[k2]).1 as int) == m2;
                        if k2 == jj as int {
                            assert(best@[jj - 1].1 as int == m2);
                        } else if k2 == jj - 1 {
                            assert(best@[jj as int].1 as int == m2);
                        } else {
                            assert(best@[k2].1 as int == m2);
                        }
                    }
                }
                jj -= 1;
            }
            proof {
                assert forall|a2: int, b2: int|
                    0 <= a2 < b2 < ii + 1 implies (#[trigger] best@[a2]).0 >= (
                #[trigger] best@[b2]).0 by {
                    if b2 == jj {
                        if a2 < jj - 1 {
                            assert(best@[a2].0 >= best@[jj - 1].0);
                        }
                    }
                }
            }
            ii += 1;
        }
        let top_members = if count > (usize::MAX - 99) / 35 {
            count
        } else {
            (count * 35 + 99) / 100
        };
        let top = if top_members == 0 {
            1
        } else if top_members > count {
            count
        } else {
            top_members
        };
        let mut out: Vec<Genome> = Vec::new();
        let mut champion_flag: usize = 0;
        let ghost mut champ_pos: int = 0;
        if count > 5 && number_offspring > 0 {
            champion_flag = 1;
            let bpos = best[0].1;
            proof {
                champ_pos = bpos as int;
                assert forall|m2: int|
                    0 <= m2 < fitness@.len() implies fitness@[champ_pos] >= #[trigger] fitness@[
                m2] by {
                    assert(ranked_somewhere(best@, m2));
                    let k2 = choose|k2: int|
                        0 <= k2 < best@.len() && ((#[trigger] best@[k2]).1 as int) == m2;
                    assert(best@[0].0 >= best@[k2].0);
                    assert(best@[k2].0 == fitness@[m2]);
                    assert(best@[0].0 == fitness@[champ_pos]);
                }
            }
            let b = members[bpos];
            let champ = &self.population[b];
            let ct = champ.connection_total();
            let base_n = self.inputs + self.outputs + 1;
            if base_n <= usize::MAX / 2 && ct <= usize::MAX / 2 - base_n {
                out.push(champ.clone());
                proof {
                    assert(genes_match(out@[0], self.population@[members@[champ_pos] as int]));
                }
            } else {
                out.push(Genome::new(self.inputs, self.outputs, self.act));
            }
        }
        let ghost cf = champion_flag as int;
        while out.len() < number_offspring
            invariant
                self.wf(),
                count == members@.len(),
                count == fitness@.len(),
                count > 0,
                best@.len() == count,
                1 <= top <= count,
                cf <= out@.len() || out@.len() == 0,
                out@.len() <= number_offspring,
                cf == champion_flag,
                0 <= cf <= 1,
                members@.len() > 5 && number_offspring > 0 ==> {
                    &&& out@.len() > 0
                    &&& 0 <= champ_pos < members@.len()
                    &&& (forall|m2: int|
                        0 <= m2 < fitness@.len() ==> fitness@[champ_pos] >= #[trigger] fitness@[
                            m2])
                    &&& ((self.inputs + self.outputs + 1 <= usize::MAX / 2 && total_len(
                        self.population@[members@[champ_pos] as int]@,
                    ) <= usize::MAX / 2 - (self.inputs + self.outputs + 1)) ==> genes_match(
                        out@[0],
                        self.population@[members@[champ_pos] as int],
                    ))
                },
                forall|k2: int|
                    0 <= k2 < count ==> ((#[trigger] best@[k2]).1 as int) < count && best@[k2].0
                        == fitness@[best@[k2].1 as int],
                forall|k2: int|
                    0 <= k2 < members@.len() ==> (#[trigger] members@[k2] as int)
                        < self.population@.len(),
                forall|k1: int, k2: int|
                    0 <= k1 < members@.len() && 0 <= k2 < members@.len() ==> aligned(
                        self.population@[#[trigger] members@[k1] as int]@,
                        self.population@[#[trigger] members@[k2] as int]@,
                    ),
                forall|k2: int|
                    0 <= k2 < out@.len() ==> {
                        let g = #[trigger] out@[k2];
                        g.wf() && g.input_nodes == self.inputs && g.output_nodes == self.outputs
                            && g.act == self.act
                    },
                forall|k: int|
                    cf <= k < out@.len() ==> exists|pa: int, pb: int|
                        #![trigger members@[pa], members@[pb]]
                        {
                            &&& 0 <= pa < members@.len()
                            &&& 0 <= pb < members@.len()
                            &&& fitness@[pa] >= fitness@[pb]
                            &&& ((self.inputs + self.outputs + 1 <= usize::MAX / 2 && total_len(
                                self.population@[members@[pa] as int]@,
                            ) <= usize::MAX / 2 - (self.inputs + self.outputs + 1)) ==> bred_from(
                                #[trigger] out@[k],
                                self.population@[members@[pa] as int],
                                self.population@[members@[pb] as int],
                            ))
                        },
            decreases number_offspring - out.len(),
        {
            let mut a = rng::rand_usize(1, top) - 1;
            let mut b = rng::rand_usize(1, top) - 1;
            if best[a].0 < best[b].0 {
                let tswap = a;
                a = b;
                b = tswap;
            }
            let ghost wa = best@[a as int].1 as int;
            let ghost wb = best@[b as int].1 as int;
            let pa = members[best[a].1];
            let pb = members[best[b].1];
            let child = self.breed(&self.population[pa], &self.population[pb]);
            let ghost pre_out = out@;
            out.push(child);
            proof {
                assert(fitness@[wa] >= fitness@[wb]);
                assert forall|k: int|
                    cf <= k < out@.len() implies exists|pa2: int, pb2: int|
                    #![trigger members@[pa2], members@[pb2]]
                    {
                        &&& 0 <= pa2 < members@.len()
                        &&& 0 <= pb2 < members@.len()
                        &&& fitness@[pa2] >= fitness@[pb2]
                        &&& ((self.inputs + self.outputs + 1 <= usize::MAX / 2 && total_len(
                            self.population@[members@[pa2] as int]@,
                        ) <= usize::MAX / 2 - (self.inputs + self.outputs + 1)) ==> bred_from(
                            #[trigger] out@[k],
                            self.population@[members@[pa2] as int],
                            self.population@[members@[pb2] as int],
                        ))
                    } by {
                    if k < pre_out.len() {
                        assert(out@[k] == pre_out[k]);
                        let (pa2, pb2) = choose|pa2: int, pb2: int|
                            #![trigger members@[pa2], members@[pb2]]
                            {
                                &&& 0 <= pa2 < members@.len()
                                &&& 0 <= pb2 < members@.len()
                                &&& fitness@[pa2] >= fitness@[pb2]
                                &&& ((self.inputs + self.outputs + 1 <= usize::MAX / 2
                                    && total_len(
                                    self.population@[members@[pa2] as int]@,
                                ) <= usize::MAX / 2 - (self.inputs + self.outputs + 1))
                                    ==> bred_from(
                                    pre_out[k],
                                    self.population@[members@[pa2] as int],
                                    self.population@[members@[pb2] as int],
                                ))
                            };
                    } else {
                        assert(out@[k] == child);
                    }
                }
            }
        }
        out
    }
}


impl Population {
    /// The output vector of every genome of the current generation on one
    /// input vector; the task-specific fitness metric over these stays with
    /// the driver.
    pub fn evaluate_all(&self, inputs: &Vec<i64>) -> (outs: Vec<Vec<i64>>)
        requires
            self.wf(),
            inputs@.len() == self.inputs,
            forall|k: int|
                0 <= k < self.population@.len() ==> eval_safe(
                    (#[trigger] self.population@[k])@,
                    inputs@,
                ),
        ensures
            outs@.len() == self.population@.len(),
            forall|k: int|
                0 <= k < outs@.len() ==> (#[trigger] outs@[k])@.len() == self.outputs,
            forall|k: int, j: int|
                #![trigger outs@[k]@[j]]
                0 <= k < outs@.len() && 0 <= j < self.outputs ==> outs@[k]@[j] == eval_value(
                    self.population@[k]@,
                    inputs@,
                    self.inputs + 1 + j,
                ),
    {
        let n = self.population.len();
        let mut outs: Vec<Vec<i64>> = Vec::new();
        let mut k: usize = 0;
        while k < n
            invariant
                self.wf(),
                n == self.population@.len(),
                inputs@.len() == self.inputs,
                forall|k2: int|
                    0 <= k2 < self.population@.len() ==> eval_safe(
                        (#[trigger] self.population@[k2])@,
                        inputs@,
                    ),
                0 <= k <= n,
                outs@.len() == k,
                forall|k2: int|
                    0 <= k2 < k ==> (#[trigger] outs@[k2])@.len() == self.outputs,
                forall|k2: int, j: int|
                    #![trigger outs@[k2]@[j]]
                    0 <= k2 < k && 0 <= j < self.outputs ==> outs@[k2]@[j] == eval_value(
                        self.population@[k2]@,
                        inputs@,
                        self.inputs + 1 + j,
                    ),
            decreases n - k,
        {
            let o = self.population[k].evaluate(inputs);
            outs.push(o);
            k += 1;
        }
        outs
    }

    /// One generational step: share each genome's fitness across its cluster,
    /// hand every cluster its fitness-proportional offspring quota (floored,
    /// with the shortfall distributed round-robin over the nonempty clusters
    /// in fitness order), breed each cluster's share, mutate each child with
    /// a small probability, re-cluster, and advance the generation counter.
    /// The next generation holds exactly as many genomes as the current one.
    pub fn next_generation(&mut self, fitness: &Vec<u64>)
        requires
            old(self).wf(),
            fitness@.len() == old(self).population@.len(),
            old(self).population@.len() <= 0x10000000,
            forall|k: int| 0 <= k < fitness@.len() ==> #[trigger] fitness@[k] <= 0x1000000000000,
            old(self).gen < usize::MAX,
            forall|k1: int, k2: int|
                0 <= k1 < old(self).population@.len() && 0 <= k2 < old(self).population@.len()
                    ==> aligned(
                    (#[trigger] old(self).population@[k1])@,
                    (#[trigger] old(self).population@[k2])@,
                ),
        ensures
            final(self).wf(),
            final(self).population@.len() == old(self).population@.len(),
            final(self).gen == old(self).gen + 1,
            final(self).inputs == old(self).inputs,
            final(self).outputs == old(self).outputs,
            final(self).act == old(self).act,
            Population::map_extends(
                old(self).inno_split.as_map(),
                final(self).inno_split.as_map(),
            ),
            Population::map_extends(
                old(self).inno_edges.as_map(),
                final(self).inno_edges.as_map(),
            ),
            forall|si: int|
                0 <= si < final(self).previous_gen@.len() ==> {
                    let s = #[trigger] final(self).previous_gen@[si];
                    &&& s.organisms@.len() > 0
                    &&& s.organisms@.contains(s.leader)
                    &&& forall|k: int|
                        0 <= k < s.organisms@.len() ==> (#[trigger] s.organisms@[k] as int)
                            < final(self).population@.len()
                },
            forall|v: usize|
                (v as int) < final(self).population@.len() ==> #[trigger] placed_in(
                    final(self).previous_gen@,
                    v,
                ),
            distinct_members(final(self).previous_gen@),
    {
        let n = self.population.len();
        if n == 0 {
            self.previous_gen = Vec::new();
            self.gen = self.gen + 1;
            return ;
        }
        if self.gen == 0 {
            let sp = self.speciate(&self.population);
            self.previous_gen = sp;
        }
        let species_count = self.previous_gen.len();
        // cluster size and cluster id per genome
        let mut assigned: Vec<usize> = Vec::new();
        let mut mapping: Vec<usize> = Vec::new();
        let mut z: usize = 0;
        while z < n
            invariant
                0 <= z <= n,
                assigned@.len() == z,
                mapping@.len() == z,
                forall|k: int| 0 <= k < z ==> (#[trigger] mapping@[k] as int) < species_count || species_count == 0,
                forall|k: int| 0 <= k < z ==> #[trigger] assigned@[k] >= 1,
            decreases n - z,
        {
            assigned.push(1);
            mapping.push(0);
            z += 1;
        }
        let mut si: usize = 0;
        while si < species_count
            invariant
                0 <= si <= species_count,
                species_count == self.previous_gen@.len(),
                assigned@.len() == n,
                mapping@.len() == n,
                forall|k: int|
                    0 <= k < n ==> (#[trigger] mapping@[k] as int) < species_count
                        || species_count == 0,
                forall|k: int| 0 <= k < n ==> #[trigger] assigned@[k] >= 1,
            decreases species_count - si,
        {
            let s = &self.previous_gen[si];
            let slen = s.organisms.len();
            let mut oi: usize = 0;
            while oi < slen
                invariant
                    0 <= si < species_count,
                    species_count == self.previous_gen@.len(),
                    slen == self.previous_gen@[si as int].organisms@.len(),
                    s.organisms@ == self.previous_gen@[si as int].organisms@,
                    0 <= oi <= slen,
                    assigned@.len() == n,
                    mapping@.len() == n,
                    forall|k: int|
                        0 <= k < n ==> (#[trigger] mapping@[k] as int) < species_count
                            || species_count == 0,
                    forall|k: int| 0 <= k < n ==> #[trigger] assigned@[k] >= 1,
                decreases slen - oi,
            {
                let a = s.organisms[oi];
                if a < n {
                    let sl = if slen == 0 {
                        1
                    } else {
                        slen
                    };
                    assigned.set(a, sl);
                    mapping.set(a, si);
                }
                oi += 1;
            }
            si += 1;
        }
        // explicit fitness sharing
        let mut shared: Vec<u64> = Vec::new();
        let mut z2: usize = 0;
        while z2 < n
            invariant
                0 <= z2 <= n,
                shared@.len() == z2,
                n == fitness@.len(),
                assigned@.len() == n,
                forall|k: int| 0 <= k < n ==> #[trigger] assigned@[k] >= 1,
                forall|k: int| 0 <= k < fitness@.len() ==> #[trigger] fitness@[k] <= 0x1000000000000,
                forall|k: int| 0 <= k < z2 ==> #[trigger] shared@[k] <= 0x1000000000000,
            decreases n - z2,
        {
            let d = assigned[z2];
            let dv: u64 = if d == 0 {
                1
            } else {
                d as u64
            };
            shared.push(fitness[z2] / dv);
            z2 += 1;
        }
        // per-cluster fitness totals
        let mut species_fitness: Vec<u128> = Vec::new();
        let mut z3: usize = 0;
        while z3 < species_count
            invariant
                0 <= z3 <= species_count,
                species_fitness@.len() == z3,
                forall|k: int| 0 <= k < z3 ==> #[trigger] species_fitness@[k] == 0,
            decreases species_count - z3,
        {
            species_fitness.push(0);
            z3 += 1;
        }
        let mut sum_fitness: u128 = 0;
        let mut z4: usize = 0;
        while z4 < n
            invariant
                0 <= z4 <= n,
                n <= 0x10000000,
                shared@.len() == n,
                mapping@.len() == n,
                species_fitness@.len() == species_count,
                forall|k: int|
                    0 <= k < n ==> (#[trigger] mapping@[k] as int) < species_count
                        || species_count == 0,
                forall|k: int| 0 <= k < n ==> #[trigger] shared@[k] <= 0x1000000000000,
                sum_fitness <= (z4 as u128) * 0x1000000000000,
                forall|k: int|
                    0 <= k < species_count ==> #[trigger] species_fitness@[k] <= (z4 as u128)
                        * 0x1000000000000,
            decreases n - z4,
        {
            proof {
                assert((z4 as u128) * 0x1000000000000 + 0x1000000000000 == (z4 as u128 + 1)
                    * 0x1000000000000) by (nonlinear_arith);
                assert((z4 as int + 1) * 0x1000000000000 <= 0x10000000 * 0x1000000000000int) by (
                nonlinear_arith)
                    requires
                        0 <= z4 as int + 1 <= 0x10000000,
                ;
            }
            let f = shared[z4] as u128;
            sum_fitness = sum_fitness + f;
            let m = mapping[z4];
            if m < species_count {
                let ghost pre_sf = species_fitness@;
                let cur = species_fitness[m];
                species_fitness.set(m, cur + f);
                proof {
                    assert forall|k: int|
                        0 <= k < species_count implies #[trigger] species_fitness@[k] <= (
                    z4 as u128 + 1) * 0x1000000000000 by {
                        if k != m {
                            assert(species_fitness@[k] == pre_sf[k]);
                        }
                        assert((z4 as u128) * 0x1000000000000 <= (z4 as u128 + 1)
                            * 0x1000000000000) by (nonlinear_arith);
                    }
                }
            }
            z4 += 1;
        }
        // floored quotas, clamped so the running total never passes the goal
        let mut quotas: Vec<usize> = Vec::new();
        let mut total: usize = 0;
        let mut z5: usize = 0;
        while z5 < species_count
            invariant
                0 <= z5 <= species_count,
                quotas@.len() == z5,
                total <= n,
                n <= 0x10000000,
                species_fitness@.len() == species_count,
                forall|k: int|
                    0 <= k < species_count ==> #[trigger] species_fitness@[k] <= (n as u128)
                        * 0x1000000000000,
                quota_sum(quotas@, z5 as int) == total,
            decreases species_count - z5,
        {
            let q: usize = if sum_fitness == 0 {
                0
            } else {
                proof {
                    assert(species_fitness@[z5 as int] * (n as u128) <= ((n as u128)
                        * 0x1000000000000) * (n as u128)) by (nonlinear_arith)
                        requires
                            0 <= species_fitness@[z5 as int] <= (n as u128) * 0x1000000000000,
                            n as u128 >= 0,
                    ;
                    assert(((n as u128) * 0x1000000000000) * (n as u128)
                        <= 0x10000000 * 0x1000000000000 * 0x10000000u128) by (nonlinear_arith)
                        requires
                            0 <= n as u128 <= 0x10000000,
                    ;
                }
                let q128 = species_fitness[z5] * (n as u128) / sum_fitness;
                if q128 > ((n - total) as u128) {
                    n - total
                } else {
                    q128 as usize
                }
            };
            let ghost pre_q = quotas@;
            quotas.push(q);
            proof {
                lemma_quota_sum_push(pre_q, z5 as int, q);
                assert(quota_sum(quotas@, z5 as int + 1) == quota_sum(pre_q, z5 as int) + q);
            }
            total = total + q;
            z5 += 1;
        }
        // the shortfall goes one at a time to the nonempty clusters, walked
        // cyclically in descending order of cluster fitness
        let mut ranked: Vec<(u128, usize)> = Vec::new();
        let mut z6: usize = 0;
        while z6 < species_count
            invariant
                0 <= z6 <= species_count,
                species_count == self.previous_gen@.len(),
                species_fitness@.len() == species_count,
                forall|k: int| 0 <= k < ranked@.len() ==> ((#[trigger] ranked@[k]).1 as int) < species_count,
            decreases species_count - z6,
        {
            if self.previous_gen[z6].organisms.len() > 0 {
                ranked.push((species_fitness[z6], z6));
            }
            z6 += 1;
        }
        let rlen = ranked.len();
        let mut si9: usize = 1;
        while si9 < rlen
            invariant
                1 <= si9 <= rlen || rlen == 0,
                ranked@.len() == rlen,
                forall|k: int| 0 <= k < rlen ==> ((#[trigger] ranked@[k]).1 as int) < species_count,
            decreases rlen - si9,
        {
            let mut sj9: usize = si9;
            while sj9 > 0 && ranked[sj9 - 1].0 < ranked[sj9].0
                invariant
                    0 <= sj9 <= si9 < rlen,
                    ranked@.len() == rlen,
                    forall|k: int|
                        0 <= k < rlen ==> ((#[trigger] ranked@[k]).1 as int) < species_count,
                decreases sj9,
            {
                let hi = ranked[sj9];
                let lo = ranked[sj9 - 1];
                ranked.set(sj9 - 1, hi);
                ranked.set(sj9, lo);
                sj9 -= 1;
            }
            si9 += 1;
        }
        let nonempty = ranked;
        if nonempty.len() == 0 {
            // unreachable when the clustering ran on a nonempty generation;
            // a fresh uniform generation keeps the contract total
            let mut fresh: Vec<Genome> = Vec::new();
            while fresh.len() < n
                invariant
                    fresh@.len() <= n,
                    self.wf(),
                    self.inputs == old(self).inputs,
                    self.outputs == old(self).outputs,
                    self.act == old(self).act,
                    forall|k: int|
                        0 <= k < fresh@.len() ==> {
                            let g = #[trigger] fresh@[k];
                            g.wf() && g.input_nodes == self.inputs && g.output_nodes
                                == self.outputs && g.act == self.act
                        },
                decreases n - fresh.len(),
            {
                fresh.push(Genome::new(self.inputs, self.outputs, self.act));
            }
            let spf = self.speciate(&fresh);
            self.previous_gen = spf;
            self.population = fresh;
            self.gen = self.gen + 1;
            return ;
        }
        let mut r: usize = 0;
        let mut rr: usize = 0;
        while total < n
            invariant
                total <= n,
                quotas@.len() == species_count,
                quota_sum(quotas@, species_count as int) == total,
                nonempty@.len() > 0,
                rr < nonempty@.len(),
                forall|k: int|
                    0 <= k < nonempty@.len() ==> ((#[trigger] nonempty@[k]).1 as int)
                        < species_count,
            decreases n - total,
        {
            let target = nonempty[rr].1;
            let ghost pre_q = quotas@;
            let cur = quotas[target];
            proof {
                lemma_quota_sum_lower(pre_q, species_count as int, target as int);
            }
            quotas.set(target, cur + 1);
            proof {
                lemma_quota_sum_update(pre_q, species_count as int, target as int, (cur + 1) as usize);
            }
            total = total + 1;
            let nl = nonempty.len();
            proof {
                assert(rr < nl);
            }
            rr = if rr + 1 < nl {
                rr + 1
            } else {
                0
            };
        }
        // breed each cluster's share
        let mut new_gen: Vec<Genome> = Vec::new();
        let mut si2: usize = 0;
        while si2 < species_count
            invariant
                self.wf(),
                self.inputs == old(self).inputs,
                self.outputs == old(self).outputs,
                self.act == old(self).act,
                self.population == old(self).population,
                self.gen == old(self).gen,
                self.inno_split == old(self).inno_split,
                self.inno_edges == old(self).inno_edges,
                0 <= si2 <= species_count,
                species_count == self.previous_gen@.len(),
                quotas@.len() == species_count,
                shared@.len() == n,
                n == self.population@.len(),
                forall|k1: int, k2: int|
                    0 <= k1 < self.population@.len() && 0 <= k2 < self.population@.len()
                        ==> aligned(
                        (#[trigger] self.population@[k1])@,
                        (#[trigger] self.population@[k2])@,
                    ),
                new_gen@.len() == quota_sum(quotas@, si2 as int),
                forall|k: int|
                    0 <= k < new_gen@.len() ==> {
                        let g = #[trigger] new_gen@[k];
                        g.wf() && g.input_nodes == self.inputs && g.output_nodes == self.outputs
                            && g.act == self.act
                    },
            decreases species_count - si2,
        {
            let quota = quotas[si2];
            if quota > 0 {
                // collect the cluster's members and their shared fitness
                let mut mem: Vec<usize> = Vec::new();
                let mut fit: Vec<u64> = Vec::new();
                let s = &self.previous_gen[si2];
                let slen = s.organisms.len();
                let mut oi: usize = 0;
                while oi < slen
                    invariant
                        0 <= si2 < species_count,
                        species_count == self.previous_gen@.len(),
                        slen == self.previous_gen@[si2 as int].organisms@.len(),
                        s.organisms@ == self.previous_gen@[si2 as int].organisms@,
                        0 <= oi <= slen,
                        shared@.len() == n,
                        n == self.population@.len(),
                        mem@.len() == fit@.len(),
                        forall|k: int|
                            0 <= k < mem@.len() ==> (#[trigger] mem@[k] as int)
                                < self.population@.len(),
                    decreases slen - oi,
                {
                    let a = s.organisms[oi];
                    if a < n {
                        mem.push(a);
                        fit.push(shared[a]);
                    }
                    oi += 1;
                }
                let adding: Vec<Genome> = if mem.len() > 0 {
                    self.create_species(&mem, &fit, quota)
                } else {
                    // unreachable for clusters the clustering produced; fill
                    // the quota with fresh genomes to keep the total
                    let mut fill: Vec<Genome> = Vec::new();
                    while fill.len() < quota
                        invariant
                            self.wf(),
                            fill@.len() <= quota,
                            forall|k: int|
                                0 <= k < fill@.len() ==> {
                                    let g = #[trigger] fill@[k];
                                    g.wf() && g.input_nodes == self.inputs && g.output_nodes
                                        == self.outputs && g.act == self.act
                                },
                        decreases quota - fill.len(),
                    {
                        fill.push(Genome::new(self.inputs, self.outputs, self.act));
                    }
                    fill
                };
                let ghost pre_new = new_gen@;
                let ghost adding_v = adding@;
                let mut adding_m = adding;
                new_gen.append(&mut adding_m);
                proof {
                    assert(new_gen@ == pre_new + adding_v);
                    assert forall|k: int|
                        0 <= k < new_gen@.len() implies {
                        let g = #[trigger] new_gen@[k];
                        g.wf() && g.input_nodes == self.inputs && g.output_nodes == self.outputs
                            && g.act == self.act
                    } by {
                        if k < pre_new.len() {
                            assert(new_gen@[k] == pre_new[k]);
                        } else {
                            assert(new_gen@[k] == adding_v[k - pre_new.len()]);
                        }
                    }
                }
            }
            si2 += 1;
        }
        proof {
            assert(new_gen@.len() == total);
        }
        // independent structural mutation of each child
        let mut mi: usize = 0;
        while mi < new_gen.len()
            invariant
                self.wf(),
                self.inputs == old(self).inputs,
                self.outputs == old(self).outputs,
                self.act == old(self).act,
                self.gen == old(self).gen,
                Population::map_extends(old(self).inno_split.as_map(), self.inno_split.as_map()),
                Population::map_extends(old(self).inno_edges.as_map(), self.inno_edges.as_map()),
                0 <= mi <= new_gen@.len(),
                new_gen@.len() == n,
                forall|k: int|
                    0 <= k < new_gen@.len() ==> {
                        let g = #[trigger] new_gen@[k];
                        g.wf() && g.input_nodes == self.inputs && g.output_nodes == self.outputs
                            && g.act == self.act
                    },
            decreases new_gen@.len() - mi,
        {
            if rng::chance(3, 100) {
                let g = &mut new_gen[mi];
                self.mutate(g);
            }
            mi += 1;
        }
        let sp2 = self.speciate(&new_gen);
        self.previous_gen = sp2;
        self.population = new_gen;
        self.gen = self.gen + 1;
    }
}

} // verus!
