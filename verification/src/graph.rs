//! The deduplicating node registry and the backing multi-relation graph.
//!
//! `HashSetGraph` stores each distinct node value once and hands out a
//! stable integer handle for it; edges are stored as (source handle,
//! target handle, relation) triples, and several edges with distinct
//! relations may connect the same ordered pair of handles.

use vstd::prelude::*;

use crate::node::clone_node;
use crate::node::NodeView;
use crate::node::Relation;
use crate::node::TagGraphNode;

verus! {

/// One directed edge of the graph, by node handles and relation label.
#[derive(Debug, Clone, Copy, PartialEq, Eq, Structural)]
pub struct GraphEdge {
    pub from: usize,
    pub to: usize,
    pub rel: Relation,
}

/// A graph whose nodes are deduplicated by value: looking a value up
/// always yields the handle under which a value-equal node was first
/// registered, so the mapping from node value to handle stays a
/// bijection.
pub struct HashSetGraph {
    nodes: Vec<TagGraphNode>,
    edges: Vec<GraphEdge>,
}

impl HashSetGraph {
    /// The registered node values, in handle order.
    pub closed spec fn node_seq(self) -> Seq<NodeView> {
        self.nodes@.map_values(|n: TagGraphNode| n@)
    }

    /// The edges, in insertion order, with handles resolved to values.
    pub closed spec fn edge_seq(self) -> Seq<(NodeView, NodeView, Relation)> {
        self.edges@.map_values(
            |e: GraphEdge| (self.node_seq()[e.from as int], self.node_seq()[e.to as int], e.rel),
        )
    }

    /// The node values, regardless of handle numbering.
    pub closed spec fn node_set(self) -> Set<NodeView> {
        self.node_seq().to_set()
    }

    /// The edges as (source value, target value, relation) triples,
    /// regardless of handle numbering.
    pub closed spec fn edge_set(self) -> Set<(NodeView, NodeView, Relation)> {
        self.edge_seq().to_set()
    }

    /// Well-formedness: no two handles carry value-equal nodes, every
    /// edge endpoint is a live handle, and no edge triple repeats.
    pub closed spec fn wf(self) -> bool {
        &&& (forall|i: int, j: int|
            0 <= i < j < self.node_seq().len() ==> self.node_seq()[i] != self.node_seq()[j])
        &&& (forall|k: int|
            0 <= k < self.edges@.len() ==> (#[trigger] self.edges@[k]).from < self.nodes@.len()
                && self.edges@[k].to < self.nodes@.len())
        &&& (forall|k: int, l: int|
            0 <= k < l < self.edges@.len() ==> self.edges@[k] != self.edges@[l])
    }

    /// An empty graph.
    pub fn new() -> (g: Self)
        ensures
            g.wf(),
            g.node_seq() == Seq::<NodeView>::empty(),
            g.edge_seq() == Seq::<(NodeView, NodeView, Relation)>::empty(),
            g.node_set() == Set::<NodeView>::empty(),
            g.edge_set() == Set::<(NodeView, NodeView, Relation)>::empty(),
    {
        let g = HashSetGraph { nodes: Vec::new(), edges: Vec::new() };
        proof {
            assert(g.node_seq() =~= Seq::<NodeView>::empty());
            assert(g.edge_seq() =~= Seq::<(NodeView, NodeView, Relation)>::empty());
            assert(g.node_set() =~= Set::<NodeView>::empty());
            assert(g.edge_set() =~= Set::<(NodeView, NodeView, Relation)>::empty());
        }
        g
    }

    /// Gets the handle of a node. Adds the node to the graph if it did
    /// not already exist; a value-equal node is never registered twice.
    pub fn get_node(&mut self, weight: &TagGraphNode) -> (idx: usize)
        requires
            old(self).wf(),
        ensures
            final(self).wf(),
            final(self).edge_seq() == old(self).edge_seq(),
            idx < final(self).node_seq().len(),
            final(self).node_seq()[idx as int] == weight@,
            old(self).node_set().contains(weight@) ==> final(self).node_seq() == old(
                self,
            ).node_seq(),
            !old(self).node_set().contains(weight@) ==> final(self).node_seq() == old(
                self,
            ).node_seq().push(weight@) && idx == old(self).node_seq().len(),
            final(self).node_set() == old(self).node_set().insert(weight@),
            final(self).edge_set() == old(self).edge_set(),
    {
        let ghost pre = *self;
        let n = self.nodes.len();
        let mut i: usize = 0;
        while i < n
            invariant
                n == self.nodes@.len(),
                i <= n,
                *self == pre,
                pre == *old(self),
                pre.wf(),
                forall|j: int| 0 <= j < i ==> self.node_seq()[j] != weight@,
            decreases n - i,
        {
            if self.nodes[i] == *weight {
                proof {
                    assert(pre.node_seq()[i as int] == weight@);
                    assert(pre.node_seq().contains(weight@));
                    assert(pre.node_set().contains(weight@));
                    assert(pre.node_set() =~= pre.node_set().insert(weight@));
                }
                return i;
            }
            i = i + 1;
        }
        proof {
            assert(forall|j: int| 0 <= j < pre.node_seq().len() ==> pre.node_seq()[j] != weight@);
            assert(!pre.node_seq().contains(weight@));
            assert(!pre.node_set().contains(weight@));
        }
        let idx = self.nodes.len();
        self.nodes.push(clone_node(weight));
        proof {
            assert(self.node_seq() =~= pre.node_seq().push(weight@));
            assert(self.node_set() =~= pre.node_set().insert(weight@)) by {
                assert(forall|v: NodeView| pre.node_seq().contains(v)
                    ==> #[trigger] self.node_seq().contains(v)) by {
                    assert(forall|j: int|
                        0 <= j < pre.node_seq().len() ==> self.node_seq()[j] == #[trigger] pre.node_seq()[j]);
                }
                assert(self.node_seq().contains(weight@)) by {
                    assert(self.node_seq()[idx as int] == weight@);
                }
                assert(forall|v: NodeView| #[trigger] self.node_seq().contains(v) ==> v == weight@
                    || pre.node_seq().contains(v)) by {
                    assert(forall|j: int| 0 <= j < self.node_seq().len() && j != idx
                        ==> #[trigger] self.node_seq()[j] == pre.node_seq()[j]);
                }
            }
            assert(self.edge_seq() =~= pre.edge_seq());
        }
        idx
    }

    /// Gets the handle of a node, taking ownership of the value. Adds
    /// the node to the graph if it did not already exist; dedup behaves
    /// exactly as in the borrowing form.
    pub fn get_node_move(&mut self, weight: TagGraphNode) -> (idx: usize)
        requires
            old(self).wf(),
        ensures
            final(self).wf(),
            final(self).edge_seq() == old(self).edge_seq(),
            idx < final(self).node_seq().len(),
            final(self).node_seq()[idx as int] == weight@,
            old(self).node_set().contains(weight@) ==> final(self).node_seq() == old(
                self,
            ).node_seq(),
            !old(self).node_set().contains(weight@) ==> final(self).node_seq() == old(
                self,
            ).node_seq().push(weight@) && idx == old(self).node_seq().len(),
            final(self).node_set() == old(self).node_set().insert(weight@),
            final(self).edge_set() == old(self).edge_set(),
    {
        self.get_node(&weight)
    }

    /// Updates a `weight`-labeled edge from `a` to `b`, creating the
    /// endpoints as needed. An edge that already connects the same
    /// ordered pair under the same relation is left as it is; one that
    /// differs in the relation alone is never overwritten.
    pub fn update_edge(&mut self, a: &TagGraphNode, b: &TagGraphNode, weight: Relation)
        requires
            old(self).wf(),
        ensures
            final(self).wf(),
            final(self).node_set() == old(self).node_set().insert(a@).insert(b@),
            final(self).edge_set() == old(self).edge_set().insert((a@, b@, weight)),
    {
        let ghost pre = *self;
        let ia = self.get_node(a);
        let ib = self.get_node(b);
        proof {
            assert(self.node_seq()[ia as int] == a@);
        }
        let ghost mid = *self;
        let n = self.edges.len();
        let mut k: usize = 0;
        while k < n
            invariant
                n == self.edges@.len(),
                k <= n,
                *self == mid,
                pre == *old(self),
                mid.wf(),
                mid.node_set() == pre.node_set().insert(a@).insert(b@),
                mid.edge_set() == pre.edge_set(),
                ia < self.nodes@.len(),
                ib < self.nodes@.len(),
                self.node_seq()[ia as int] == a@,
                self.node_seq()[ib as int] == b@,
                forall|l: int| 0 <= l < k ==> self.edges@[l] != (GraphEdge {
                    from: ia,
                    to: ib,
                    rel: weight,
                }),
            decreases n - k,
        {
            let e = self.edges[k];
            if e.from == ia && e.to == ib && e.rel == weight {
                proof {
                    assert(mid.edge_seq()[k as int] == (a@, b@, weight));
                    assert(mid.edge_seq().contains((a@, b@, weight)));
                    assert(mid.edge_set() =~= mid.edge_set().insert((a@, b@, weight)));
                }
                return ;
            }
            k = k + 1;
        }
        self.edges.push(GraphEdge { from: ia, to: ib, rel: weight });
        proof {
            assert(self.node_seq() == mid.node_seq());
            assert(self.edge_seq() =~= mid.edge_seq().push((a@, b@, weight)));
            assert(self.edge_set() =~= mid.edge_set().insert((a@, b@, weight))) by {
                assert(forall|l: int|
                    0 <= l < mid.edge_seq().len() ==> self.edge_seq()[l] == #[trigger] mid.edge_seq()[l]);
                assert(forall|t: (NodeView, NodeView, Relation)|
                    mid.edge_seq().contains(t) ==> #[trigger] self.edge_seq().contains(t));
                assert(self.edge_seq().contains((a@, b@, weight))) by {
                    assert(self.edge_seq()[mid.edges@.len() as int] == (a@, b@, weight));
                }
                assert(forall|t: (NodeView, NodeView, Relation)| #[trigger] self.edge_seq().contains(
                    t,
                ) ==> t == (a@, b@, weight) || mid.edge_seq().contains(t)) by {
                    assert(forall|l: int| 0 <= l < self.edge_seq().len() && l != mid.edges@.len()
                        ==> #[trigger] self.edge_seq()[l] == mid.edge_seq()[l]);
                }
            }
        }
    }

    /// How many nodes the graph holds: one per distinct node value.
    pub fn node_count(&self) -> (n: usize)
        requires
            self.wf(),
        ensures
            n == self.node_seq().len(),
            n == self.node_set().len(),
    {
        proof {
            lemma_distinct_seq_to_set_len(self.node_seq());
        }
        self.nodes.len()
    }

    /// How many edges the graph holds: one per distinct
    /// (source, target, relation) triple.
    pub fn edge_count(&self) -> (n: usize)
        requires
            self.wf(),
        ensures
            n == self.edge_seq().len(),
            n == self.edge_set().len(),
    {
        proof {
            lemma_counts_determined(*self);
        }
        self.edges.len()
    }

    /// The value triple an edge record denotes.
    pub open spec fn edge_view(self, e: GraphEdge) -> (NodeView, NodeView, Relation) {
        (self.node_seq()[e.from as int], self.node_seq()[e.to as int], e.rel)
    }

    /// The node value behind a handle.
    pub fn node_at(&self, idx: usize) -> (n: &TagGraphNode)
        requires
            idx < self.node_seq().len(),
        ensures
            n@ == self.node_seq()[idx as int],
    {
        &self.nodes[idx]
    }

    /// One edge, by position in insertion order.
    pub fn edge_at(&self, k: usize) -> (e: GraphEdge)
        requires
            self.wf(),
            k < self.edge_seq().len(),
        ensures
            e.from < self.node_seq().len(),
            e.to < self.node_seq().len(),
            (self.node_seq()[e.from as int], self.node_seq()[e.to as int], e.rel) == self.edge_seq()[k as int],
            self.edge_set().contains(self.edge_seq()[k as int]),
    {
        proof {
            assert(self.edge_seq().contains(self.edge_seq()[k as int]));
        }
        self.edges[k]
    }

    /// The edges that carry one relation label, in insertion order:
    /// the edge subset a relation-restricted traversal follows.
    pub fn edges_by_relation(&self, rel: Relation) -> (v: Vec<GraphEdge>)
        requires
            self.wf(),
        ensures
            v@.map_values(|e: GraphEdge| self.edge_view(e)) == rel_filter(self.edge_seq(), rel),
    {
        let mut v: Vec<GraphEdge> = Vec::new();
        let n = self.edges.len();
        let mut k: usize = 0;
        proof {
            assert(v@.map_values(|e: GraphEdge| self.edge_view(e)) =~= rel_filter(
                self.edge_seq().subrange(0, 0),
                rel,
            ));
        }
        while k < n
            invariant
                k <= n,
                n == self.edges@.len(),
                v@.map_values(|e: GraphEdge| self.edge_view(e)) == rel_filter(
                    self.edge_seq().subrange(0, k as int),
                    rel,
                ),
            decreases n - k,
        {
            let e = self.edges[k];
            proof {
                lemma_rel_filter_step(self.edge_seq(), rel, k as int);
                assert(self.edge_seq()[k as int] == self.edge_view(e));
            }
            if e.rel == rel {
                proof {
                    assert(v@.push(e).map_values(|x: GraphEdge| self.edge_view(x)) =~= v@
                        .map_values(|x: GraphEdge| self.edge_view(x)).push(self.edge_view(e)));
                }
                v.push(e);
            }
            k = k + 1;
        }
        proof {
            assert(self.edge_seq().subrange(0, n as int) =~= self.edge_seq());
        }
        v
    }

    /// Whether a node with this value is registered.
    pub fn contains_node(&self, weight: &TagGraphNode) -> (r: bool)
        ensures
            r == self.node_set().contains(weight@),
    {
        let n = self.nodes.len();
        let mut i: usize = 0;
        while i < n
            invariant
                n == self.nodes@.len(),
                i <= n,
                forall|j: int| 0 <= j < i ==> self.node_seq()[j] != weight@,
            decreases n - i,
        {
            if self.nodes[i] == *weight {
                proof {
                    assert(self.node_seq()[i as int] == weight@);
                    assert(self.node_seq().contains(weight@));
                }
                return true;
            }
            i = i + 1;
        }
        proof {
            assert(!self.node_seq().contains(weight@));
        }
        false
    }

    /// Whether a `rel`-labeled edge runs from node value `a` to node
    /// value `b`.
    pub fn contains_edge(&self, a: &TagGraphNode, b: &TagGraphNode, rel: Relation) -> (r: bool)
        requires
            self.wf(),
        ensures
            r == self.edge_set().contains((a@, b@, rel)),
    {
        let n = self.edges.len();
        let mut k: usize = 0;
        while k < n
            invariant
                self.wf(),
                n == self.edges@.len(),
                k <= n,
                forall|l: int| 0 <= l < k ==> self.edge_seq()[l] != (a@, b@, rel),
            decreases n - k,
        {
            let e = self.edges[k];
            if self.nodes[e.from] == *a && self.nodes[e.to] == *b && e.rel == rel {
                proof {
                    assert(self.edge_seq()[k as int] == (a@, b@, rel));
                    assert(self.edge_seq().contains((a@, b@, rel)));
                }
                return true;
            }
            k = k + 1;
        }
        proof {
            assert(!self.edge_seq().contains((a@, b@, rel)));
        }
        false
    }
}

/// The edges of `es` that carry `rel`, in order.
pub open spec fn rel_filter(es: Seq<(NodeView, NodeView, Relation)>, rel: Relation) -> Seq<
    (NodeView, NodeView, Relation),
> {
    es.filter(|t: (NodeView, NodeView, Relation)| t.2 == rel)
}

proof fn lemma_rel_filter_step(es: Seq<(NodeView, NodeView, Relation)>, rel: Relation, k: int)
    requires
        0 <= k < es.len(),
    ensures
        rel_filter(es.subrange(0, k + 1), rel) == if es[k].2 == rel {
            rel_filter(es.subrange(0, k), rel).push(es[k])
        } else {
            rel_filter(es.subrange(0, k), rel)
        },
{
    assert(es.subrange(0, k + 1).drop_last() =~= es.subrange(0, k));
    assert(es.subrange(0, k + 1).last() == es[k]);
    reveal(Seq::filter);
}

/// A well-formed graph is as large as its value sets alone dictate:
/// the handle counts are determined by the node set and the edge set.
pub proof fn lemma_counts_determined(g: HashSetGraph)
    requires
        g.wf(),
    ensures
        g.node_seq().len() == g.node_set().len(),
        g.edge_seq().len() == g.edge_set().len(),
{
    lemma_distinct_seq_to_set_len(g.node_seq());
    assert(forall|k: int, l: int|
        0 <= k < l < g.edge_seq().len() ==> g.edge_seq()[k] != g.edge_seq()[l]) by {
        assert forall|k: int, l: int|
            0 <= k < l < g.edge_seq().len() implies g.edge_seq()[k] != g.edge_seq()[l] by {
            let ek = g.edges@[k];
            let el = g.edges@[l];
            if g.edge_seq()[k] == g.edge_seq()[l] {
                lemma_node_dedup(g, ek.from as int, el.from as int);
                lemma_node_dedup(g, ek.to as int, el.to as int);
            }
        }
    }
    lemma_distinct_seq_to_set_len(g.edge_seq());
}

/// The dedup invariant: in a well-formed graph no two distinct handles
/// carry the same node value, so however many times and from whichever
/// pass a canonical path is looked up, it resolves to one handle and the
/// graph has exactly one node for it.
pub proof fn lemma_node_dedup(g: HashSetGraph, i: int, j: int)
    requires
        g.wf(),
        0 <= i < g.node_seq().len(),
        0 <= j < g.node_seq().len(),
        g.node_seq()[i] == g.node_seq()[j],
    ensures
        i == j,
{
}

/// A sequence without repeats has as many elements as its set of values.
proof fn lemma_distinct_seq_to_set_len<A>(s: Seq<A>)
    requires
        forall|i: int, j: int| 0 <= i < j < s.len() ==> s[i] != s[j],
    ensures
        s.to_set().len() == s.len(),
        s.to_set().finite(),
    decreases s.len(),
{
    if s.len() == 0 {
        assert(s.to_set() =~= Set::<A>::empty());
    } else {
        let prefix = s.drop_last();
        lemma_distinct_seq_to_set_len(prefix);
        assert(!prefix.contains(s.last())) by {
            assert(forall|i: int| 0 <= i < prefix.len() ==> prefix[i] == s[i] && s[i] != s[s.len()
                - 1]);
        }
        assert(!prefix.to_set().contains(s.last()));
        assert(s.to_set() =~= prefix.to_set().insert(s.last())) by {
            assert(forall|i: int| 0 <= i < prefix.len() ==> prefix[i] == #[trigger] s[i]);
            assert(forall|v: A| prefix.contains(v) ==> #[trigger] s.contains(v));
            assert(s.contains(s.last()));
            assert(forall|v: A| #[trigger] s.contains(v) ==> v == s.last() || prefix.contains(v))
                by {
                assert(forall|i: int| 0 <= i < s.len() - 1 ==> #[trigger] s[i] == prefix[i]);
            }
        }
    }
}

} // verus!
