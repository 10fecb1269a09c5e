//! Genomes: node genes and connection genes keyed by innovation id, under the
//! structural invariants of NEAT.

use crate::neat::connection_gene::ConnectionGene;
use crate::neat::innovation::InnovationRegistry;
use crate::neat::node_gene::{NodeGene, NodeType};
use crate::random::{random_bool, random_index};
use std::collections::BTreeMap;
use vstd::prelude::*;

verus! {

broadcast use vstd::std_specs::btree::group_btree_axioms, vstd::laws_cmp::group_laws_cmp;

/// Why a genome refused a structural change.
#[derive(Debug, Clone, Copy, PartialEq, Eq, Structural)]
pub enum GenomeError {
    /// The requested connection would break an invariant of the genome: an
    /// endpoint is missing, it would leave an output node or enter an input
    /// node, or it exists already.
    InvalidConnection,
    /// No pair of nodes of the genome can take a new connection.
    GraphSaturated,
}

/// A network in NEAT's encoding. Each gene is stored under its own
/// innovation id.
#[derive(Debug, Clone)]
pub struct Genome<V> {
    pub connection_genes: BTreeMap<i8, ConnectionGene<V>>,
    pub node_genes: BTreeMap<i8, NodeGene<V>>,
}

impl<V> Genome<V> {
    pub open spec fn nodes(&self) -> Map<i8, NodeGene<V>> {
        self.node_genes@
    }

    pub open spec fn connections(&self) -> Map<i8, ConnectionGene<V>> {
        self.connection_genes@
    }

    /// Connection `k` leaves `a` and enters `b`.
    pub open spec fn links(&self, k: i8, a: i8, b: i8) -> bool {
        &&& self.connections().contains_key(k)
        &&& self.connections()[k].in_node == a
        &&& self.connections()[k].out_node == b
    }

    /// Some connection leaves `a` and enters `b`.
    pub open spec fn has_connection(&self, a: i8, b: i8) -> bool {
        exists|k: i8| #[trigger] self.links(k, a, b)
    }

    /// The structural invariants: every gene sits under its own id; every
    /// connection joins two nodes of the genome, leaves no output node and
    /// enters no input node; no two connections join the same pair.
    pub open spec fn wf(&self) -> bool {
        &&& forall|k: i8| #[trigger]
            self.nodes().contains_key(k) ==> self.nodes()[k].innovation_id == k
        &&& forall|k: i8| #[trigger]
            self.connections().contains_key(k) ==> {
                let c = self.connections()[k];
                &&& c.innovation_id == k
                &&& self.nodes().contains_key(c.in_node)
                &&& self.nodes().contains_key(c.out_node)
                &&& self.nodes()[c.in_node].node_type != NodeType::OUTPUT
                &&& self.nodes()[c.out_node].node_type != NodeType::INPUT
            }
        &&& forall|k1: i8, k2: i8, a: i8, b: i8|
            #[trigger] self.links(k1, a, b) && #[trigger] self.links(k2, a, b) ==> k1 == k2
    }

    /// Every id of the genome has been handed out by `reg`.
    pub open spec fn numbered_by(&self, reg: InnovationRegistry) -> bool {
        &&& forall|k: i8| #[trigger]
            self.nodes().contains_key(k) ==> 1 <= k <= reg.nodes_issued()
        &&& forall|k: i8| #[trigger]
            self.connections().contains_key(k) ==> 1 <= k <= reg.connections_issued()
    }

    /// A new connection from `a` to `b` would keep the invariants.
    pub open spec fn can_connect(&self, a: i8, b: i8) -> bool {
        &&& self.nodes().contains_key(a)
        &&& self.nodes().contains_key(b)
        &&& self.nodes()[a].node_type != NodeType::OUTPUT
        &&& self.nodes()[b].node_type != NodeType::INPUT
        &&& !self.has_connection(a, b)
    }

    /// No pair of nodes can take a new connection.
    pub open spec fn saturated(&self) -> bool {
        forall|a: i8, b: i8| !#[trigger] self.can_connect(a, b)
    }

    /// A genome without genes.
    pub fn empty() -> (r: Genome<V>)
        ensures
            r.wf(),
            r.nodes() == Map::<i8, NodeGene<V>>::empty(),
            r.connections() == Map::<i8, ConnectionGene<V>>::empty(),
    {
        Genome { connection_genes: BTreeMap::new(), node_genes: BTreeMap::new() }
    }

    /// Whether some connection leaves `a` and enters `b`.
    fn connection_exists(&self, reg: &InnovationRegistry, a: i8, b: i8) -> (r: bool)
        requires
            reg.wf(),
            self.wf(),
            self.numbered_by(*reg),
        ensures
            r == self.has_connection(a, b),
    {
        let last = reg.current_connection();
        let mut k: i8 = 0;
        while k < last
            invariant
                last == reg.connections_issued(),
                0 <= k <= last,
                forall|j: i8| 1 <= j <= k ==> !#[trigger] self.links(j, a, b),
            decreases last - k,
        {
            k = k + 1;
            match self.connection_genes.get(&k) {
                Some(c) => {
                    if c.in_node == a && c.out_node == b {
                        assert(self.links(k, a, b));
                        return true;
                    }
                },
                None => {},
            }
        }
        proof {
            assert forall|j: i8| !#[trigger] self.links(j, a, b) by {
                if self.connections().contains_key(j) {
                    assert(1 <= j <= reg.connections_issued());
                }
            }
        }
        false
    }

    /// Whether a new connection from `a` to `b` would keep the invariants.
    pub fn is_candidate(&self, reg: &InnovationRegistry, a: i8, b: i8) -> (r: bool)
        requires
            reg.wf(),
            self.wf(),
            self.numbered_by(*reg),
        ensures
            r == self.can_connect(a, b),
    {
        let in_ok = match self.node_genes.get(&a) {
            Some(n) => n.node_type != NodeType::OUTPUT,
            None => false,
        };
        let out_ok = match self.node_genes.get(&b) {
            Some(n) => n.node_type != NodeType::INPUT,
            None => false,
        };
        in_ok && out_ok && !self.connection_exists(reg, a, b)
    }

    /// Adds a node of role `node_type` under the next node id of `reg`.
    pub fn add_node_gene_of_type(&mut self, reg: &mut InnovationRegistry, node_type: NodeType, activation: V)
        requires
            old(reg).wf(),
            old(self).wf(),
            old(self).numbered_by(*old(reg)),
            old(reg).nodes_issued() < i8::MAX,
        ensures
            final(reg).wf(),
            final(self).wf(),
            final(self).numbered_by(*final(reg)),
            final(reg).nodes_issued() == old(reg).nodes_issued() + 1,
            final(reg).connections_issued() == old(reg).connections_issued(),
            final(self).nodes() == old(self).nodes().insert(
                final(reg).nodes_issued() as i8,
                NodeGene { activation, innovation_id: final(reg).nodes_issued() as i8, node_type },
            ),
            final(self).connections() == old(self).connections(),
    {
        let id = reg.next_node();
        let node = NodeGene::new(id, node_type, activation);
        proof {
            assert(!self.nodes().contains_key(id));
        }
        self.node_genes.insert(id, node);
        proof {
            assert forall|j: i8, a: i8, b: i8| #[trigger] self.links(j, a, b) implies old(self).links(
                j,
                a,
                b,
            ) by {}
        }
    }

    /// Adds a node of a role drawn uniformly from the three, under the next
    /// node id of `reg`.
    pub fn add_node_gene(&mut self, reg: &mut InnovationRegistry, activation: V)
        requires
            old(reg).wf(),
            old(self).wf(),
            old(self).numbered_by(*old(reg)),
            old(reg).nodes_issued() < i8::MAX,
        ensures
            final(reg).wf(),
            final(self).wf(),
            final(self).numbered_by(*final(reg)),
            final(reg).nodes_issued() == old(reg).nodes_issued() + 1,
            final(reg).connections_issued() == old(reg).connections_issued(),
            final(self).nodes() == old(self).nodes().insert(
                final(reg).nodes_issued() as i8,
                final(self).nodes()[final(reg).nodes_issued() as i8],
            ),
            final(self).nodes()[final(reg).nodes_issued() as i8].innovation_id
                == final(reg).nodes_issued(),
            final(self).nodes()[final(reg).nodes_issued() as i8].activation == activation,
            final(self).connections() == old(self).connections(),
    {
        self.add_node_gene_of_type(reg, NodeType::random(), activation);
    }

    /// Adds a connection from `in_node` to `out_node` under the next
    /// connection id of `reg`; `InvalidConnection`, with nothing changed,
    /// when it would break an invariant.
    pub fn add_connection_gene_between(
        &mut self,
        reg: &mut InnovationRegistry,
        in_node: i8,
        out_node: i8,
        weight: V,
        enabled: bool,
    ) -> (r: Result<(), GenomeError>)
        requires
            old(reg).wf(),
            old(self).wf(),
            old(self).numbered_by(*old(reg)),
            old(reg).connections_issued() < i8::MAX,
        ensures
            final(reg).wf(),
            final(self).wf(),
            final(self).numbered_by(*final(reg)),
            r is Ok <==> old(self).can_connect(in_node, out_node),
            r is Err ==> r == Err::<(), GenomeError>(GenomeError::InvalidConnection) && *final(self)
                == *old(self) && *final(reg) == *old(reg),
            r is Ok ==> {
                &&& final(reg).connections_issued() == old(reg).connections_issued() + 1
                &&& final(reg).nodes_issued() == old(reg).nodes_issued()
                &&& final(self).connections() == old(self).connections().insert(
                    final(reg).connections_issued() as i8,
                    ConnectionGene {
                        in_node,
                        out_node,
                        weight,
                        enabled,
                        innovation_id: final(reg).connections_issued() as i8,
                    },
                )
            },
            final(self).nodes() == old(self).nodes(),
    {
        if !self.is_candidate(reg, in_node, out_node) {
            return Err(GenomeError::InvalidConnection);
        }
        let id = reg.next_connection();
        let conn = ConnectionGene::with_enabled(in_node, out_node, id, weight, enabled);
        proof {
            assert(!self.connections().contains_key(id));
        }
        self.connection_genes.insert(id, conn);
        proof {
            assert forall|k1: i8, k2: i8, a: i8, b: i8|
                #[trigger] self.links(k1, a, b) && #[trigger] self.links(k2, a, b) implies k1 == k2 by {
                if k1 != id && k2 != id {
                    assert(old(self).links(k1, a, b) && old(self).links(k2, a, b));
                } else if k1 == id && k2 != id {
                    assert(old(self).links(k2, in_node, out_node));
                } else if k2 == id && k1 != id {
                    assert(old(self).links(k1, in_node, out_node));
                }
            }
        }
        Ok(())
    }

    /// Every pair `(a, b)` of node ids up to `reg`'s latest that can take a
    /// new connection.
    fn candidates(&self, reg: &InnovationRegistry) -> (r: Vec<(i8, i8)>)
        requires
            reg.wf(),
            self.wf(),
            self.numbered_by(*reg),
        ensures
            forall|k: int| 0 <= k < r@.len() ==> self.can_connect(#[trigger] r@[k].0, r@[k].1),
            forall|a: i8, b: i8| #[trigger] self.can_connect(a, b) ==> r@.contains((a, b)),
    {
        let last = reg.current_node();
        let mut found: Vec<(i8, i8)> = Vec::new();
        let mut a: i8 = 0;
        while a < last
            invariant
                reg.wf(),
                self.wf(),
                self.numbered_by(*reg),
                last == reg.nodes_issued(),
                0 <= a <= last,
                forall|k: int| 0 <= k < found@.len() ==> self.can_connect(#[trigger] found@[k].0, found@[k].1),
                forall|x: i8, y: i8|
                    1 <= x <= a && #[trigger] self.can_connect(x, y) ==> found@.contains((x, y)),
            decreases last - a,
        {
            a = a + 1;
            let mut b: i8 = 0;
            while b < last
                invariant
                    reg.wf(),
                    self.wf(),
                    self.numbered_by(*reg),
                    last == reg.nodes_issued(),
                    1 <= a <= last,
                    0 <= b <= last,
                    forall|k: int| 0 <= k < found@.len() ==> self.can_connect(#[trigger] found@[k].0, found@[k].1),
                    forall|x: i8, y: i8|
                        1 <= x < a && #[trigger] self.can_connect(x, y) ==> found@.contains((x, y)),
                    forall|y: i8|
                        1 <= y <= b && #[trigger] self.can_connect(a, y) ==> found@.contains((a, y)),
                decreases last - b,
            {
                b = b + 1;
                if self.is_candidate(reg, a, b) {
                    let ghost before = found@;
                    found.push((a, b));
                    proof {
                        assert(found@[found@.len() - 1] == (a, b));
                        assert forall|x: i8, y: i8|
                            before.contains((x, y)) implies found@.contains((x, y)) by {
                            let k = choose|k: int| 0 <= k < before.len() && before[k] == (x, y);
                            assert(found@[k] == (x, y));
                        }
                    }
                }
            }
            proof {
                assert forall|y: i8| #[trigger] self.can_connect(a, y) implies found@.contains((a, y)) by {
                    assert(1 <= y <= last);
                }
            }
        }
        proof {
            assert forall|x: i8, y: i8| #[trigger] self.can_connect(x, y) implies found@.contains((x, y)) by {
                assert(1 <= x <= last);
            }
        }
        found
    }

    /// Adds a connection between a pair of nodes drawn uniformly from those
    /// that can take one, under the next connection id of `reg`, enabled or
    /// not by a fair coin; `GraphSaturated`, with nothing changed, when no
    /// pair can.
    pub fn add_connection_gene(&mut self, reg: &mut InnovationRegistry, weight: V) -> (r: Result<
        (),
        GenomeError,
    >)
        requires
            old(reg).wf(),
            old(self).wf(),
            old(self).numbered_by(*old(reg)),
            old(reg).connections_issued() < i8::MAX,
        ensures
            final(reg).wf(),
            final(self).wf(),
            final(self).numbered_by(*final(reg)),
            r is Err <==> old(self).saturated(),
            r is Err ==> r == Err::<(), GenomeError>(GenomeError::GraphSaturated) && *final(self)
                == *old(self) && *final(reg) == *old(reg),
            r is Ok ==> {
                let id = final(reg).connections_issued() as i8;
                let c = final(self).connections()[id];
                &&& final(reg).connections_issued() == old(reg).connections_issued() + 1
                &&& final(reg).nodes_issued() == old(reg).nodes_issued()
                &&& final(self).connections() == old(self).connections().insert(id, c)
                &&& old(self).can_connect(c.in_node, c.out_node)
                &&& c.weight == weight
                &&& c.innovation_id == id
            },
            final(self).nodes() == old(self).nodes(),
            forall|k: i8| #[trigger]
                final(self).connections().contains_key(k) ==> {
                    let c = final(self).connections()[k];
                    &&& final(self).nodes()[c.in_node].node_type != NodeType::OUTPUT
                    &&& final(self).nodes()[c.out_node].node_type != NodeType::INPUT
                },
            forall|k1: i8, k2: i8|
                #[trigger] final(self).connections().contains_key(k1)
                    && #[trigger] final(self).connections().contains_key(k2) && k1 != k2 ==> !(final(self).connections()[k1].in_node
                    == final(self).connections()[k2].in_node && final(self).connections()[k1].out_node
                    == final(self).connections()[k2].out_node),
    {
        let found = self.candidates(reg);
        if found.len() == 0 {
            proof {
                assert forall|a: i8, b: i8| !#[trigger] self.can_connect(a, b) by {
                    if self.can_connect(a, b) {
                        assert(found@.contains((a, b)));
                    }
                }
            }
            proof {
                assert forall|k1: i8, k2: i8|
                    #[trigger] self.connections().contains_key(k1) && #[trigger] self.connections().contains_key(k2)
                        && k1 != k2 implies !(self.connections()[k1].in_node == self.connections()[k2].in_node
                    && self.connections()[k1].out_node == self.connections()[k2].out_node) by {
                    let c = self.connections()[k1];
                    if self.connections()[k2].in_node == c.in_node && self.connections()[k2].out_node == c.out_node {
                        assert(self.links(k1, c.in_node, c.out_node) && self.links(k2, c.in_node, c.out_node));
                    }
                }
            }
            return Err(GenomeError::GraphSaturated);
        }
        let pick = random_index(0, found.len());
        let (a, b) = found[pick];
        proof {
            assert(self.can_connect(found@[pick as int].0, found@[pick as int].1));
            assert(!self.saturated());
        }
        let enabled = random_bool();
        let r = self.add_connection_gene_between(reg, a, b, weight, enabled);
        proof {
            assert forall|k1: i8, k2: i8|
                #[trigger] self.connections().contains_key(k1) && #[trigger] self.connections().contains_key(k2)
                    && k1 != k2 implies !(self.connections()[k1].in_node == self.connections()[k2].in_node
                && self.connections()[k1].out_node == self.connections()[k2].out_node) by {
                let c = self.connections()[k1];
                if self.connections()[k2].in_node == c.in_node && self.connections()[k2].out_node == c.out_node {
                    assert(self.links(k1, c.in_node, c.out_node) && self.links(k2, c.in_node, c.out_node));
                }
            }
        }
        r
    }
}

impl<V: Copy> Genome<V> {
    /// A genome of `activations.len()` nodes, of roles drawn uniformly, then
    /// `weights.len()` connections, each between a pair drawn uniformly from
    /// those that can take one. Node `i` gets activation `activations[i]` and
    /// connection `i` weight `weights[i]`. `GraphSaturated` when a connection
    /// finds no pair.
    pub fn new(reg: &mut InnovationRegistry, activations: &Vec<V>, weights: &Vec<V>) -> (r: Result<
        Genome<V>,
        GenomeError,
    >)
        requires
            old(reg).wf(),
            old(reg).nodes_issued() + activations@.len() <= i8::MAX,
            old(reg).connections_issued() + weights@.len() <= i8::MAX,
        ensures
            final(reg).wf(),
            final(reg).nodes_issued() == old(reg).nodes_issued() + activations@.len(),
            weights@.len() == 0 ==> r is Ok,
            r is Err ==> r == Err::<Genome<V>, GenomeError>(GenomeError::GraphSaturated)
                && old(reg).connections_issued() <= final(reg).connections_issued()
                < old(reg).connections_issued() + weights@.len(),
            r matches Ok(g) ==> {
                &&& g.wf()
                &&& g.numbered_by(*final(reg))
                &&& final(reg).connections_issued() == old(reg).connections_issued()
                    + weights@.len()
                &&& forall|k: i8|
                    #[trigger] g.nodes().contains_key(k) <==> old(reg).nodes_issued() < k
                        <= final(reg).nodes_issued()
                &&& forall|k: i8| #[trigger]
                    g.nodes().contains_key(k) ==> g.nodes()[k].activation == activations@[k
                        - old(reg).nodes_issued() - 1]
                &&& forall|k: i8|
                    #[trigger] g.connections().contains_key(k) <==> old(reg).connections_issued()
                        < k <= final(reg).connections_issued()
                &&& forall|k: i8| #[trigger]
                    g.connections().contains_key(k) ==> g.connections()[k].weight == weights@[k
                        - old(reg).connections_issued() - 1]
            },
    {
        let ghost n0 = reg.nodes_issued();
        let ghost c0 = reg.connections_issued();
        let mut genome: Genome<V> = Genome::empty();
        let mut i: usize = 0;
        while i < activations.len()
            invariant
                reg.wf(),
                genome.wf(),
                genome.numbered_by(*reg),
                i <= activations@.len(),
                n0 + activations@.len() <= i8::MAX,
                reg.nodes_issued() == n0 + i,
                reg.connections_issued() == c0,
                genome.connections() == Map::<i8, ConnectionGene<V>>::empty(),
                forall|k: i8| #[trigger] genome.nodes().contains_key(k) <==> n0 < k <= n0 + i,
                forall|k: i8| #[trigger]
                    genome.nodes().contains_key(k) ==> genome.nodes()[k].activation
                        == activations@[k - n0 - 1],
            decreases activations@.len() - i,
        {
            genome.add_node_gene(reg, activations[i]);
            i = i + 1;
        }
        let mut j: usize = 0;
        let mut failed = false;
        while j < weights.len() && !failed
            invariant
                reg.wf(),
                genome.wf(),
                genome.numbered_by(*reg),
                j <= weights@.len(),
                c0 + weights@.len() <= i8::MAX,
                reg.nodes_issued() == n0 + activations@.len(),
                reg.connections_issued() == c0 + j,
                failed ==> j < weights@.len(),
                forall|k: i8| #[trigger] genome.nodes().contains_key(k) <==> n0 < k <= reg.nodes_issued(),
                forall|k: i8| #[trigger]
                    genome.nodes().contains_key(k) ==> genome.nodes()[k].activation
                        == activations@[k - n0 - 1],
                forall|k: i8| #[trigger] genome.connections().contains_key(k) <==> c0 < k <= c0 + j,
                forall|k: i8| #[trigger]
                    genome.connections().contains_key(k) ==> genome.connections()[k].weight
                        == weights@[k - c0 - 1],
            decreases weights@.len() - j + (if failed { 0int } else { 1int }),
        {
            let added = genome.add_connection_gene(reg, weights[j]);
            if added.is_err() {
                failed = true;
            } else {
                j = j + 1;
            }
        }
        if failed {
            return Err(GenomeError::GraphSaturated);
        }
        Ok(genome)
    }
}

/// In every genome that its operations build, each connection leaves a node
/// that is not an output, enters a node that is not an input, joins two
/// nodes of the genome, and is the only connection between those two nodes.
pub proof fn lemma_connection_rules<V>(g: Genome<V>, k: i8)
    requires
        g.wf(),
        g.connections().contains_key(k),
    ensures
        ({
            let c = g.connections()[k];
            &&& g.nodes().contains_key(c.in_node)
            &&& g.nodes().contains_key(c.out_node)
            &&& g.nodes()[c.in_node].node_type != NodeType::OUTPUT
            &&& g.nodes()[c.out_node].node_type != NodeType::INPUT
            &&& forall|j: i8|
                #[trigger] g.connections().contains_key(j) && j != k ==> !(g.connections()[j].in_node
                    == c.in_node && g.connections()[j].out_node == c.out_node)
        }),
{
    let c = g.connections()[k];
    assert forall|j: i8| #[trigger] g.connections().contains_key(j) && j != k implies !(
    g.connections()[j].in_node == c.in_node && g.connections()[j].out_node == c.out_node) by {
        if g.connections()[j].in_node == c.in_node && g.connections()[j].out_node == c.out_node {
            assert(g.links(j, c.in_node, c.out_node) && g.links(k, c.in_node, c.out_node));
        }
    }
}

} // verus!
