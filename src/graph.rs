//! The co-occurrence graph: one node per label, one weighted edge per pair.
use vstd::prelude::*;
use petgraph::graph::{Graph, NodeIndex};
use petgraph::Undirected;
use crate::pairs::{PairCounts, PairEntry};
use crate::label::lemma_label_lt_total;

verus! {

#[verifier::external_type_specification]
#[verifier::external_body]
#[verifier::reject_recursive_types(N)]
#[verifier::reject_recursive_types(E)]
#[verifier::reject_recursive_types(Ty)]
#[verifier::reject_recursive_types(Ix)]
pub struct ExGraph<N, E, Ty, Ix>(Graph<N, E, Ty, Ix>);

#[verifier::external_type_specification]
#[verifier::external_body]
pub struct ExUndirected(Undirected);

/// The node weights of a petgraph graph, in index order.
pub uninterp spec fn node_labels(g: Graph<String, usize, Undirected, u32>) -> Seq<Seq<char>>;

/// The edges of a petgraph graph, in index order, as (endpoint, endpoint, weight).
pub uninterp spec fn edge_list(g: Graph<String, usize, Undirected, u32>) -> Seq<(usize, usize, usize)>;

/// The (other endpoint, weight) of each edge touching `v`, in edge order.
pub open spec fn neighbour_seq(es: Seq<(usize, usize, usize)>, v: usize) -> Seq<(usize, usize)>
    decreases es.len(),
{
    if es.len() == 0 {
        Seq::empty()
    } else {
        let e = es.last();
        let rest = neighbour_seq(es.drop_last(), v);
        if e.0 == v {
            rest.push((e.1, e.2))
        } else if e.1 == v {
            rest.push((e.0, e.2))
        } else {
            rest
        }
    }
}

/// Relies on petgraph's `Graph::new_undirected`: a graph with no nodes and no edges.
#[verifier::external_body]
fn empty_graph() -> (g: Graph<String, usize, Undirected, u32>)
    ensures
        node_labels(g) == Seq::<Seq<char>>::empty(),
        edge_list(g) == Seq::<(usize, usize, usize)>::empty(),
{
    Graph::new_undirected()
}

/// Relies on petgraph's `Graph::add_node`: appends a node and returns its index;
/// it panics only once the index type is exhausted.
#[verifier::external_body]
fn push_node(g: &mut Graph<String, usize, Undirected, u32>, label: String) -> (r: usize)
    requires
        node_labels(*old(g)).len() < u32::MAX,
    ensures
        node_labels(*final(g)) == node_labels(*old(g)).push(label@),
        edge_list(*final(g)) == edge_list(*old(g)),
        r == node_labels(*old(g)).len(),
{
    g.add_node(label).index()
}

/// Relies on petgraph's `Graph::add_edge`: appends an edge between two existing
/// nodes; it panics on a missing node or once the index type is exhausted.
#[verifier::external_body]
fn push_edge(g: &mut Graph<String, usize, Undirected, u32>, a: usize, b: usize, w: usize)
    requires
        a < node_labels(*old(g)).len(),
        b < node_labels(*old(g)).len(),
        edge_list(*old(g)).len() < u32::MAX,
    ensures
        node_labels(*final(g)) == node_labels(*old(g)),
        edge_list(*final(g)) == edge_list(*old(g)).push((a, b, w)),
{
    g.add_edge(NodeIndex::new(a), NodeIndex::new(b), w);
}

/// Relies on petgraph's `Graph::node_count`: the number of nodes.
#[verifier::external_body]
fn count_nodes(g: &Graph<String, usize, Undirected, u32>) -> (r: usize)
    ensures
        r == node_labels(*g).len(),
{
    g.node_count()
}

/// Relies on indexing a petgraph `Graph` by node: the weight of node `i`.
#[verifier::external_body]
fn label_at(g: &Graph<String, usize, Undirected, u32>, i: usize) -> (r: &String)
    requires
        i < node_labels(*g).len(),
    ensures
        r@ == node_labels(*g)[i as int],
{
    &g[NodeIndex::new(i)]
}

/// Relies on petgraph's `Graph::edge_count`: the number of edges.
#[verifier::external_body]
fn count_edges(g: &Graph<String, usize, Undirected, u32>) -> (r: usize)
    ensures
        r == edge_list(*g).len(),
{
    g.edge_count()
}

/// Relies on petgraph's `Graph::raw_edges`: the edge array in index order;
/// indexing it panics past its end.
#[verifier::external_body]
fn edge_at(g: &Graph<String, usize, Undirected, u32>, i: usize) -> (r: (usize, usize, usize))
    requires
        i < edge_list(*g).len(),
    ensures
        r == edge_list(*g)[i as int],
{
    let e = &g.raw_edges()[i];
    (e.source().index(), e.target().index(), e.weight)
}

pub open spec fn unique_labels(s: Seq<Seq<char>>) -> bool {
    forall|p: int, q: int| 0 <= p < q < s.len() ==> #[trigger] s[p] != #[trigger] s[q]
}

/// `s` with `x` appended unless it already holds it.
pub open spec fn add_new(s: Seq<Seq<char>>, x: Seq<char>) -> Seq<Seq<char>> {
    if s.contains(x) {
        s
    } else {
        s.push(x)
    }
}

/// Labels in order of first appearance over the pair entries, low before high.
pub open spec fn node_order(es: Seq<PairEntry>) -> Seq<Seq<char>>
    decreases es.len(),
{
    if es.len() == 0 {
        Seq::empty()
    } else {
        add_new(add_new(node_order(es.drop_last()), es.last().low@), es.last().high@)
    }
}

/// The index of the node labelled `label`, added first if there is none.
fn node_for(g: &mut Graph<String, usize, Undirected, u32>, label: &String) -> (r: usize)
    requires
        node_labels(*old(g)).len() < u32::MAX,
        unique_labels(node_labels(*old(g))),
    ensures
        node_labels(*final(g)) == add_new(node_labels(*old(g)), label@),
        edge_list(*final(g)) == edge_list(*old(g)),
        unique_labels(node_labels(*final(g))),
        r < node_labels(*final(g)).len(),
        node_labels(*final(g))[r as int] == label@,
{
    let n = count_nodes(g);
    let mut i: usize = 0;
    while i < n
        invariant
            n == node_labels(*g).len(),
            *g == *old(g),
            unique_labels(node_labels(*g)),
            i <= n,
            forall|k: int| 0 <= k < i ==> node_labels(*g)[k] != label@,
        decreases n - i,
    {
        if *label_at(g, i) == *label {
            assert(node_labels(*g).contains(label@));
            return i;
        }
        i = i + 1;
    }
    assert(!node_labels(*g).contains(label@));
    let ghost before = node_labels(*g);
    let r = push_node(g, label.clone());
    assert forall|p: int, q: int| 0 <= p < q < node_labels(*g).len() implies #[trigger] node_labels(
        *g,
    )[p] != #[trigger] node_labels(*g)[q] by {
        if q == before.len() {
            assert(node_labels(*g)[p] == before[p]);
        } else {
            assert(node_labels(*g)[p] == before[p]);
            assert(node_labels(*g)[q] == before[q]);
        }
    }
    r
}

proof fn lemma_node_order_len(es: Seq<PairEntry>)
    ensures
        node_order(es).len() <= 2 * es.len(),
    decreases es.len(),
{
    if es.len() > 0 {
        lemma_node_order_len(es.drop_last());
    }
}

/// Whether two edges join the same unordered pair of nodes.
pub open spec fn same_ends(e: (usize, usize, usize), f: (usize, usize, usize)) -> bool {
    (e.0 == f.0 && e.1 == f.1) || (e.0 == f.1 && e.1 == f.0)
}

/// The co-occurrence graph over petgraph, with unique node labels.
pub struct CollabGraph {
    pub graph: Graph<String, usize, Undirected, u32>,
}

impl CollabGraph {
    pub open spec fn labels(&self) -> Seq<Seq<char>> {
        node_labels(self.graph)
    }

    pub open spec fn edges(&self) -> Seq<(usize, usize, usize)> {
        edge_list(self.graph)
    }

    /// Labels are unique and every edge joins two existing nodes.
    pub open spec fn wf(&self) -> bool {
        &&& unique_labels(self.labels())
        &&& forall|i: int|
            0 <= i < self.edges().len() ==> (#[trigger] self.edges()[i]).0 < self.labels().len()
                && self.edges()[i].1 < self.labels().len()
    }

    /// No edge is a self-loop and no two edges join the same two nodes.
    pub open spec fn simple(&self) -> bool {
        &&& forall|i: int|
            0 <= i < self.edges().len() ==> (#[trigger] self.edges()[i]).0 != self.edges()[i].1
        &&& forall|i: int, j: int|
            0 <= i < j < self.edges().len() ==> !same_ends(
                #[trigger] self.edges()[i],
                #[trigger] self.edges()[j],
            )
    }

    /// One node per label, numbered in order of first appearance over the
    /// entries, and one edge per entry carrying its count.
    pub fn build(pc: &PairCounts) -> (r: CollabGraph)
        requires
            pc.entries@.len() < u32::MAX / 2,
        ensures
            r.wf(),
            r.labels() == node_order(pc.entries@),
            r.edges().len() == pc.entries@.len(),
            forall|i: int|
                0 <= i < pc.entries@.len() ==> {
                    &&& r.labels()[(#[trigger] r.edges()[i]).0 as int] == pc.entries@[i].low@
                    &&& r.labels()[r.edges()[i].1 as int] == pc.entries@[i].high@
                    &&& r.edges()[i].2 == pc.entries@[i].count
                },
            pc.wf() ==> r.simple(),
    {
        let mut g = empty_graph();
        let ghost es = pc.entries@;
        let mut i: usize = 0;
        while i < pc.entries.len()
            invariant
                es == pc.entries@,
                es.len() < u32::MAX / 2,
                i <= es.len(),
                node_labels(g) == node_order(es.take(i as int)),
                unique_labels(node_labels(g)),
                edge_list(g).len() == i,
                forall|k: int|
                    0 <= k < i ==> {
                        &&& (#[trigger] edge_list(g)[k]).0 < node_labels(g).len()
                        &&& edge_list(g)[k].1 < node_labels(g).len()
                        &&& node_labels(g)[edge_list(g)[k].0 as int] == es[k].low@
                        &&& node_labels(g)[edge_list(g)[k].1 as int] == es[k].high@
                        &&& edge_list(g)[k].2 == es[k].count
                    },
            decreases es.len() - i,
        {
            proof {
                lemma_node_order_len(es.take(i as int));
                assert(es.take(i + 1).drop_last() =~= es.take(i as int));
            }
            let ghost l0 = node_labels(g);
            let ghost e0 = edge_list(g);
            let a = node_for(&mut g, &pc.entries[i].low);
            let ghost l1 = node_labels(g);
            let b = node_for(&mut g, &pc.entries[i].high);
            let ghost l2 = node_labels(g);
            proof {
                assert(l1.len() <= l2.len());
                assert(l2[a as int] == l1[a as int]);
            }
            push_edge(&mut g, a, b, pc.entries[i].count);
            proof {
                assert forall|k: int| 0 <= k < i + 1 implies {
                    &&& (#[trigger] edge_list(g)[k]).0 < node_labels(g).len()
                    &&& edge_list(g)[k].1 < node_labels(g).len()
                    &&& node_labels(g)[edge_list(g)[k].0 as int] == es[k].low@
                    &&& node_labels(g)[edge_list(g)[k].1 as int] == es[k].high@
                    &&& edge_list(g)[k].2 == es[k].count
                } by {
                    if k < i {
                        assert(edge_list(g)[k] == e0[k]);
                        assert(l0.len() <= l2.len());
                        assert(l2[e0[k].0 as int] == l0[e0[k].0 as int]);
                        assert(l2[e0[k].1 as int] == l0[e0[k].1 as int]);
                    }
                }
            }
            i = i + 1;
        }
        assert(es.take(es.len() as int) =~= es);
        let r = CollabGraph { graph: g };
        proof {
            if pc.wf() {
                assert forall|i: int| 0 <= i < r.edges().len() implies (#[trigger] r.edges()[i]).0
                    != r.edges()[i].1 by {
                    lemma_label_lt_total(es[i].low@, es[i].high@);
                }
                assert forall|i: int, j: int| 0 <= i < j < r.edges().len() implies !same_ends(
                    #[trigger] r.edges()[i],
                    #[trigger] r.edges()[j],
                ) by {
                    lemma_label_lt_total(es[i].low@, es[j].low@);
                    lemma_label_lt_total(es[i].low@, es[i].high@);
                    lemma_label_lt_total(es[j].low@, es[j].high@);
                }
            }
        }
        r
    }

    /// Number of nodes.
    pub fn node_count(&self) -> (r: usize)
        ensures
            r == self.labels().len(),
    {
        count_nodes(&self.graph)
    }

    /// The label of node `i`.
    pub fn label(&self, i: usize) -> (r: &String)
        requires
            i < self.labels().len(),
        ensures
            r@ == self.labels()[i as int],
    {
        label_at(&self.graph, i)
    }

    /// For each node, the (neighbour, weight) of each edge touching it, in
    /// edge order.
    pub fn adjacency(&self) -> (r: Vec<Vec<(usize, usize)>>)
        requires
            self.wf(),
        ensures
            r@.len() == self.labels().len(),
            forall|v: int|
                0 <= v < r@.len() ==> (#[trigger] r@[v])@ == neighbour_seq(self.edges(), v as usize),
    {
        let n = self.node_count();
        let m = count_edges(&self.graph);
        let ghost es = self.edges();
        let mut adj: Vec<Vec<(usize, usize)>> = Vec::new();
        let mut v: usize = 0;
        while v < n
            invariant
                self.wf(),
                es == self.edges(),
                m == es.len(),
                n == self.labels().len(),
                v <= n,
                adj@.len() == v,
                forall|u: int| 0 <= u < v ==> (#[trigger] adj@[u])@ == neighbour_seq(es, u as usize),
            decreases n - v,
        {
            let mut row: Vec<(usize, usize)> = Vec::new();
            let mut i: usize = 0;
            assert(es.take(0) =~= Seq::<(usize, usize, usize)>::empty());
            while i < m
                invariant
                    es == self.edges(),
                    m == es.len(),
                    i <= m,
                    row@ == neighbour_seq(es.take(i as int), v),
                decreases m - i,
            {
                let (a, b, w) = edge_at(&self.graph, i);
                proof {
                    assert(es.take(i + 1).drop_last() =~= es.take(i as int));
                }
                if a == v {
                    row.push((b, w));
                } else if b == v {
                    row.push((a, w));
                }
                i = i + 1;
            }
            proof {
                assert(es.take(m as int) =~= es);
            }
            adj.push(row);
            v = v + 1;
        }
        adj
    }
}

} // verus!

