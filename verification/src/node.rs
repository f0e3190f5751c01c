use vstd::prelude::*;
use crate::activation::Activation;

verus! {

/// One directed weighted edge, owned by its source node. The target is an
/// index into the owning genome's node vector (the arena owns every node;
/// connections refer by index and never own their target).
#[derive(Clone, Copy)]
pub struct Connection {
    pub to: usize,
    pub inno_number: usize,
    pub active: bool,
    pub weight: i64,
}

/// One unit of the graph: its dense index in the owning genome (`local_id`),
/// its stable historical identity (`global_id`), and its outgoing edges.
pub struct Node {
    pub global_id: usize,
    pub local_id: usize,
    pub adj: Vec<Connection>,
    pub act: Activation,
}

impl Node {
    pub open spec fn spec_edge_exists(adj: Seq<Connection>, to: usize) -> bool {
        exists|j: int| 0 <= j < adj.len() && (#[trigger] adj[j]).to == to
    }

    pub fn new(local_id: usize, global_id: usize, act: Activation) -> (n: Node)
        ensures
            n.local_id == local_id,
            n.global_id == global_id,
            n.act == act,
            n.adj@ =~= Seq::<Connection>::empty(),
    {
        Node { global_id, local_id, adj: Vec::new(), act }
    }

    pub fn edge_exist(&self, to: usize) -> (r: bool)
        ensures
            r == Node::spec_edge_exists(self.adj@, to),
    {
        let mut k: usize = 0;
        while k < self.adj.len()
            invariant
                0 <= k <= self.adj@.len(),
                forall|j: int| 0 <= j < k ==> (#[trigger] self.adj@[j]).to != to,
            decreases self.adj@.len() - k,
        {
            if self.adj[k].to == to {
                return true;
            }
            k += 1;
        }
        false
    }

    /// Applies the node's activation to an accumulated input sum.
    pub fn evaluate(&self, x: i64) -> (r: i64)
        ensures
            r == self.act.apply_spec(x as int),
    {
        self.act.apply(x)
    }

    pub fn add_edge(&mut self, inno_number: usize, weight: i64, active: bool, to: usize)
        ensures
            final(self).adj@ == old(self).adj@.push(
                Connection { to, inno_number, active, weight },
            ),
            final(self).global_id == old(self).global_id,
            final(self).local_id == old(self).local_id,
            final(self).act == old(self).act,
    {
        self.adj.push(Connection { to, inno_number, active, weight });
    }

    /// Clears the active flag of every connection whose target is `to`.
    pub fn disable_edge(&mut self, to: usize)
        ensures
            final(self).adj@.len() == old(self).adj@.len(),
            forall|j: int| 0 <= j < final(self).adj@.len() ==> #[trigger] final(self).adj@[j] == (
                if old(self).adj@[j].to == to {
                    Connection { active: false, ..old(self).adj@[j] }
                } else {
                    old(self).adj@[j]
                }
            ),
            final(self).global_id == old(self).global_id,
            final(self).local_id == old(self).local_id,
            final(self).act == old(self).act,
    {
        let mut k: usize = 0;
        while k < self.adj.len()
            invariant
                0 <= k <= self.adj@.len(),
                self.adj@.len() == old(self).adj@.len(),
                forall|j: int| k <= j < self.adj@.len() ==> #[trigger] self.adj@[j] == old(
                    self,
                ).adj@[j],
                forall|j: int| 0 <= j < k ==> #[trigger] self.adj@[j] == (
                    if old(self).adj@[j].to == to {
                        Connection { active: false, ..old(self).adj@[j] }
                    } else {
                        old(self).adj@[j]
                    }
                ),
                self.global_id == old(self).global_id,
                self.local_id == old(self).local_id,
                self.act == old(self).act,
            decreases self.adj@.len() - k,
        {
            if self.adj[k].to == to {
                let c = &self.adj[k];
                let updated = Connection {
                    to: c.to,
                    inno_number: c.inno_number,
                    active: false,
                    weight: c.weight,
                };
                self.adj.set(k, updated);
            }
            k += 1;
        }
    }

    /// Sets the active flag of every connection whose target is `to`.
    pub fn enable_edge(&mut self, to: usize)
        ensures
            final(self).adj@.len() == old(self).adj@.len(),
            forall|j: int| 0 <= j < final(self).adj@.len() ==> #[trigger] final(self).adj@[j] == (
                if old(self).adj@[j].to == to {
                    Connection { active: true, ..old(self).adj@[j] }
                } else {
                    old(self).adj@[j]
                }
            ),
            final(self).global_id == old(self).global_id,
            final(self).local_id == old(self).local_id,
            final(self).act == old(self).act,
    {
        let mut k: usize = 0;
        while k < self.adj.len()
            invariant
                0 <= k <= self.adj@.len(),
                self.adj@.len() == old(self).adj@.len(),
                forall|j: int| k <= j < self.adj@.len() ==> #[trigger] self.adj@[j] == old(
                    self,
                ).adj@[j],
                forall|j: int| 0 <= j < k ==> #[trigger] self.adj@[j] == (
                    if old(self).adj@[j].to == to {
                        Connection { active: true, ..old(self).adj@[j] }
                    } else {
                        old(self).adj@[j]
                    }
                ),
                self.global_id == old(self).global_id,
                self.local_id == old(self).local_id,
                self.act == old(self).act,
            decreases self.adj@.len() - k,
        {
            if self.adj[k].to == to {
                let c = &self.adj[k];
                let updated = Connection {
                    to: c.to,
                    inno_number: c.inno_number,
                    active: true,
                    weight: c.weight,
                };
                self.adj.set(k, updated);
            }
            k += 1;
        }
    }

    /// Weight of the first connection to `to`, or `None` when no connection
    /// targets it.
    pub fn edge_weight(&self, to: usize) -> (r: Option<i64>)
        ensures
            match r {
                Option::None => !Node::spec_edge_exists(self.adj@, to),
                Option::Some(w) => exists|j: int|
                    0 <= j < self.adj@.len() && (#[trigger] self.adj@[j]).to == to
                        && self.adj@[j].weight == w,
            },
    {
        let mut k: usize = 0;
        while k < self.adj.len()
            invariant
                0 <= k <= self.adj@.len(),
                forall|j: int| 0 <= j < k ==> (#[trigger] self.adj@[j]).to != to,
            decreases self.adj@.len() - k,
        {
            if self.adj[k].to == to {
                return Some(self.adj[k].weight);
            }
            k += 1;
        }
        None
    }

    /// Pops the most recently added connection; used to undo a speculative
    /// insertion.
    pub fn del_back(&mut self)
        requires
            old(self).adj@.len() > 0,
        ensures
            final(self).adj@ == old(self).adj@.drop_last(),
            final(self).global_id == old(self).global_id,
            final(self).local_id == old(self).local_id,
            final(self).act == old(self).act,
    {
        let _ = self.adj.pop();
    }
}

} // verus!
