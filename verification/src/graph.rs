//! Weighted undirected graph over string-labelled nodes: construction by
//! threshold filtering, connected components (cognate sets), greedy
//! modularity communities, PageRank, shortest paths, statistics and JSON
//! export.

use vstd::prelude::*;
use vstd::string::StringExecFns;
use crate::types::{CognateSet, Ratio, SimilarityEdge, string_views, str_eq, has_view};
use crate::cluster::{
    count_eq, sum_counts, indices_with, lemma_indices_with_elems, lemma_indices_with_contains,
    lemma_indices_with_len, lemma_sum_counts_total,
};

verus! {

/// Ghost model of the graph: node labels in insertion order and edges as
/// index triples in insertion order.
pub struct GraphModel {
    pub labels: Seq<Seq<char>>,
    pub edges: Seq<(int, int, u64)>,
}

/// Index of the first label equal to `v`, or `-1`.
pub open spec fn label_index(labels: Seq<Seq<char>>, v: Seq<char>) -> int
    decreases labels.len(),
{
    if labels.len() == 0 {
        -1
    } else if labels[0] == v {
        0
    } else {
        let r = label_index(labels.drop_first(), v);
        if r < 0 {
            -1
        } else {
            r + 1
        }
    }
}

/// The model after adding one labelled node if absent.
pub open spec fn model_add_node(m: GraphModel, v: Seq<char>) -> (GraphModel, int) {
    let i = label_index(m.labels, v);
    if i >= 0 {
        (m, i)
    } else {
        (GraphModel { labels: m.labels.push(v), edges: m.edges }, m.labels.len() as int)
    }
}

/// The model after adding one weighted edge, creating absent endpoints.
pub open spec fn model_add_edge(m: GraphModel, s: Seq<char>, t: Seq<char>, w: u64) -> GraphModel {
    let (m1, a) = model_add_node(m, s);
    let (m2, b) = model_add_node(m1, t);
    GraphModel { labels: m2.labels, edges: m2.edges.push((a, b, w)) }
}

/// The model built from the triples whose weight reaches the threshold,
/// in order.
pub open spec fn graph_model(edges: Seq<(Seq<char>, Seq<char>, u64)>, threshold: u64) -> GraphModel
    decreases edges.len(),
{
    if edges.len() == 0 {
        GraphModel { labels: Seq::empty(), edges: Seq::empty() }
    } else {
        let prev = graph_model(edges.drop_last(), threshold);
        let e = edges.last();
        if e.2 >= threshold {
            model_add_edge(prev, e.0, e.1, e.2)
        } else {
            prev
        }
    }
}

/// The views of a list of similarity edges.
pub open spec fn edge_views(edges: Seq<SimilarityEdge>) -> Seq<(Seq<char>, Seq<char>, u64)> {
    edges.map_values(|e: SimilarityEdge| (e.source@, e.target@, e.weight))
}

/// The triples of `edges` that reach the threshold, in order.
pub open spec fn filter_edge_views(edges: Seq<(Seq<char>, Seq<char>, u64)>, threshold: u64) -> Seq<
    (Seq<char>, Seq<char>, u64),
>
    decreases edges.len(),
{
    if edges.len() == 0 {
        Seq::empty()
    } else {
        let prefix = filter_edge_views(edges.drop_last(), threshold);
        if edges.last().2 >= threshold {
            prefix.push(edges.last())
        } else {
            prefix
        }
    }
}

/// Filtering first and then building without a threshold builds the same
/// graph as building with the threshold directly.
pub proof fn lemma_filter_then_build(edges: Seq<(Seq<char>, Seq<char>, u64)>, threshold: u64)
    ensures
        graph_model(filter_edge_views(edges, threshold), 0) == graph_model(edges, threshold),
    decreases edges.len(),
{
    if edges.len() > 0 {
        lemma_filter_then_build(edges.drop_last(), threshold);
        let f = filter_edge_views(edges, threshold);
        if edges.last().2 >= threshold {
            assert(f.drop_last() =~= filter_edge_views(edges.drop_last(), threshold));
            assert(f.last() == edges.last());
        } else {
            assert(f =~= filter_edge_views(edges.drop_last(), threshold));
        }
    }
}

/// Undirected weighted graph: string labels in insertion order, edges as
/// index triples in insertion order.
pub struct CognateGraph {
    labels: Vec<String>,
    edge_list: Vec<(usize, usize, u64)>,
}

impl CognateGraph {
    /// The ghost model.
    pub closed spec fn model(self) -> GraphModel {
        GraphModel {
            labels: string_views(self.labels@),
            edges: self.edge_list@.map_values(
                |e: (usize, usize, u64)| (e.0 as int, e.1 as int, e.2),
            ),
        }
    }

    /// Number of nodes.
    pub closed spec fn n(self) -> nat {
        self.labels@.len()
    }

    /// Number of edges.
    pub closed spec fn num_edges(self) -> nat {
        self.edge_list@.len()
    }

    /// The labels.
    pub closed spec fn labels_view(self) -> Seq<String> {
        self.labels@
    }

    /// Structural invariant: edge endpoints in range, labels distinct.
    pub closed spec fn wf(self) -> bool {
        &&& forall|t: int|
            0 <= t < self.edge_list@.len() ==> ((#[trigger] self.edge_list@[t]).0 as int)
                < self.labels@.len() && (self.edge_list@[t].1 as int) < self.labels@.len()
        &&& forall|k1: int, k2: int|
            0 <= k1 < k2 < self.labels@.len() ==> (#[trigger] self.labels@[k1])@ != (
            #[trigger] self.labels@[k2])@
    }

    /// Fresh empty graph.
    pub fn new() -> (g: CognateGraph)
        ensures
            g.wf(),
            g.n() == 0,
            g.num_edges() == 0,
            g.model().labels =~= Seq::<Seq<char>>::empty(),
            g.model().edges =~= Seq::<(int, int, u64)>::empty(),
    {
        CognateGraph { labels: Vec::new(), edge_list: Vec::new() }
    }

    fn get_or_create_node(&mut self, id: String) -> (idx: usize)
        requires
            old(self).wf(),
        ensures
            final(self).wf(),
            final(self).edge_list@ == old(self).edge_list@,
            ({
                let (m2, i) = model_add_node(old(self).model(), id@);
                final(self).model() == m2 && idx as int == i && (idx as int) < final(self).n()
            }),
    {
        let ghost m0 = self.model();
        let mut i: usize = 0;
        proof {
            assert(string_views(self.labels@).skip(0) =~= string_views(self.labels@));
        }
        while i < self.labels.len()
            invariant
                *self == *old(self),
                self.wf(),
                i <= self.labels@.len(),
                label_index(string_views(self.labels@), id@) == if label_index(
                    string_views(self.labels@).skip(i as int),
                    id@,
                ) < 0 {
                    -1int
                } else {
                    label_index(string_views(self.labels@).skip(i as int), id@) + i
                },
            decreases self.labels@.len() - i,
        {
            proof {
                assert(string_views(self.labels@).skip(i as int)[0] == self.labels@[i as int]@);
                assert(string_views(self.labels@).skip(i as int).drop_first() =~= string_views(
                    self.labels@,
                ).skip(i + 1));
            }
            if str_eq(self.labels[i].as_str(), id.as_str()) {
                proof {
                    assert(string_views(self.labels@).skip(i as int)[0] == id@);
                    assert(label_index(string_views(self.labels@).skip(i as int), id@) == 0);
                }
                return i;
            }
            i = i + 1;
        }
        proof {
            assert(string_views(self.labels@).skip(self.labels@.len() as int).len() == 0);
        }
        let idx = self.labels.len();
        let ghost old_labels = self.labels@;
        self.labels.push(id);
        proof {
            assert(string_views(self.labels@) =~= string_views(old_labels).push(id@));
            assert forall|k1: int, k2: int|
                0 <= k1 < k2 < self.labels@.len() implies (#[trigger] self.labels@[k1])@ != (
            #[trigger] self.labels@[k2])@ by {
                if k2 == self.labels@.len() - 1 {
                    lemma_label_index_absent(string_views(old_labels), id@, k1);
                }
            }
        }
        idx
    }

    /// Add one weighted edge, creating the endpoints when absent.
    pub fn add_edge(&mut self, source: String, target: String, weight: u64)
        requires
            old(self).wf(),
            old(self).num_edges() < usize::MAX,
        ensures
            final(self).wf(),
            final(self).num_edges() == old(self).num_edges() + 1,
            final(self).model() == model_add_edge(old(self).model(), source@, target@, weight),
    {
        let a = self.get_or_create_node(source);
        let b = self.get_or_create_node(target);
        self.edge_list.push((a, b, weight));
        proof {
            assert(final(self).model().edges =~= model_add_edge(
                old(self).model(),
                source@,
                target@,
                weight,
            ).edges);
        }
    }

    /// Build the graph from the edges whose weight reaches the threshold,
    /// in order.
    pub fn from_edges(edges: Vec<SimilarityEdge>, threshold: u64) -> (g: CognateGraph)
        requires
            edges@.len() < usize::MAX,
        ensures
            g.wf(),
            g.model() == graph_model(edge_views(edges@), threshold),
    {
        let mut g = CognateGraph::new();
        let mut t: usize = 0;
        proof {
            assert(g.model() == graph_model(edge_views(edges@.take(0)), threshold)) by {
                assert(edge_views(edges@.take(0)) =~= Seq::<(Seq<char>, Seq<char>, u64)>::empty());
            }
        }
        while t < edges.len()
            invariant
                t <= edges@.len(),
                edges@.len() < usize::MAX,
                g.wf(),
                g.num_edges() <= t,
                g.model() == graph_model(edge_views(edges@.take(t as int)), threshold),
            decreases edges@.len() - t,
        {
            proof {
                assert(edge_views(edges@.take(t + 1)).drop_last() =~= edge_views(
                    edges@.take(t as int),
                ));
                assert(edge_views(edges@.take(t + 1)).last() == (edges@[t as int].source@, edges@[
                    t as int].target@, edges@[t as int].weight));
            }
            let e = &edges[t];
            if e.weight >= threshold {
                let (s2, t2) = (e.source.clone(), e.target.clone());
                g.add_edge(s2, t2, e.weight);
            }
            t = t + 1;
        }
        proof {
            assert(edges@.take(edges@.len() as int) =~= edges@);
        }
        g
    }
}


/// How the ghost model lines up with the sizes and labels: one model label
/// per stored label, in order, and one model edge per stored edge.
pub proof fn lemma_graph_model_shape(g: CognateGraph)
    ensures
        g.model().labels.len() == g.n(),
        g.model().edges.len() == g.num_edges(),
        forall|i: int| 0 <= i < g.n() ==> #[trigger] g.model().labels[i] == g.labels_view()[i]@,
        forall|t: int|
            0 <= t < g.num_edges() ==> #[trigger] g.model().edges[t] == (
            g.edges_internal()[t].0 as int,
            g.edges_internal()[t].1 as int,
            g.edges_internal()[t].2,
        ),
{
}

pub proof fn lemma_label_index_of_self(labels: Seq<Seq<char>>, idx: int)
    requires
        0 <= idx < labels.len(),
        forall|k1: int, k2: int| 0 <= k1 < k2 < labels.len() ==> (#[trigger] labels[k1]) != (#[trigger] labels[k2]),
    ensures
        label_index(labels, labels[idx]) == idx,
    decreases labels.len(),
{
    if idx > 0 {
        let tail = labels.drop_first();
        assert forall|k1: int, k2: int| 0 <= k1 < k2 < tail.len() implies (#[trigger] tail[k1])
            != (#[trigger] tail[k2]) by {
            assert(tail[k1] == labels[k1 + 1] && tail[k2] == labels[k2 + 1]);
        }
        assert(tail[idx - 1] == labels[idx]);
        lemma_label_index_of_self(tail, idx - 1);
    }
}

proof fn lemma_label_index_absent(labels: Seq<Seq<char>>, v: Seq<char>, k: int)
    requires
        label_index(labels, v) < 0,
        0 <= k < labels.len(),
    ensures
        labels[k] != v,
    decreases labels.len(),
{
    if labels.len() > 0 && k > 0 {
        lemma_label_index_absent(labels.drop_first(), v, k - 1);
        assert(labels.drop_first()[k - 1] == labels[k]);
    }
}


/// The neighbors of `v`: for each edge touching `v`, in order, the
/// opposite endpoint and the weight; a self-loop appears once.
pub open spec fn incident(edges: Seq<(usize, usize, u64)>, v: usize) -> Seq<(usize, u64)>
    decreases edges.len(),
{
    if edges.len() == 0 {
        Seq::empty()
    } else {
        let prefix = incident(edges.drop_last(), v);
        let e = edges.last();
        if e.0 == v {
            prefix.push((e.1, e.2))
        } else if e.1 == v {
            prefix.push((e.0, e.2))
        } else {
            prefix
        }
    }
}

proof fn lemma_incident_elems(edges: Seq<(usize, usize, u64)>, v: usize, n: int)
    requires
        forall|t: int|
            0 <= t < edges.len() ==> ((#[trigger] edges[t]).0 as int) < n && (edges[t].1 as int)
                < n,
    ensures
        forall|k: int|
            0 <= k < incident(edges, v).len() ==> ((#[trigger] incident(edges, v)[k]).0 as int)
                < n,
    decreases edges.len(),
{
    if edges.len() > 0 {
        lemma_incident_elems(edges.drop_last(), v, n);
        assert(edges[edges.len() - 1] == edges.last());
        let pre = incident(edges.drop_last(), v);
        let cur = incident(edges, v);
        assert forall|k: int| 0 <= k < cur.len() implies ((#[trigger] cur[k]).0 as int) < n by {
            if k < pre.len() {
                assert(cur[k] == pre[k]);
                assert(edges.drop_last() =~= edges.take(edges.len() - 1));
                assert forall|t: int|
                    0 <= t < edges.drop_last().len() implies ((#[trigger] edges.drop_last()[t]).0
                    as int) < n && (edges.drop_last()[t].1 as int) < n by {
                    assert(edges.drop_last()[t] == edges[t]);
                }
            }
        }
    }
}

impl CognateGraph {
    /// The neighbor list of node `v`.
    fn neighbors(&self, v: usize) -> (r: Vec<(usize, u64)>)
        requires
            self.wf(),
        ensures
            r@ == incident(self.edges_internal(), v),
            forall|k: int| 0 <= k < r@.len() ==> ((#[trigger] r@[k]).0 as int) < self.n(),
    {
        let mut r: Vec<(usize, u64)> = Vec::new();
        let mut t: usize = 0;
        while t < self.edge_list.len()
            invariant
                t <= self.edge_list@.len(),
                self.wf(),
                r@ == incident(self.edge_list@.take(t as int), v),
            decreases self.edge_list@.len() - t,
        {
            proof {
                assert(self.edge_list@.take(t + 1).drop_last() =~= self.edge_list@.take(t as int));
                assert(self.edge_list@.take(t + 1).last() == self.edge_list@[t as int]);
            }
            let e = self.edge_list[t];
            if e.0 == v {
                r.push((e.1, e.2));
            } else if e.1 == v {
                r.push((e.0, e.2));
            }
            t = t + 1;
        }
        proof {
            assert(self.edge_list@.take(self.edge_list@.len() as int) =~= self.edge_list@);
            lemma_incident_elems(self.edge_list@, v, self.n() as int);
        }
        r
    }

    /// The stored edge triples.
    pub closed spec fn edges_internal(self) -> Seq<(usize, usize, u64)> {
        self.edge_list@
    }

    /// Label every node with a component number from one up: two nodes get
    /// the same number exactly when a path of stored edges joins them.
    fn component_labels(&self) -> (r: (Vec<usize>, usize))
        requires
            self.wf(),
        ensures
            r.0@.len() == self.n(),
            forall|i: int| 0 <= i < self.n() ==> 1 <= (#[trigger] r.0@[i]) <= r.1,
            (r.1 as int) <= self.n(),
            self.n() > 0 ==> r.1 >= 1,
            forall|c: int| 1 <= c <= r.1 ==> #[trigger] class_used(r.0@, c),
            forall|x: usize, y: usize|
                #![trigger r.0@[x as int], r.0@[y as int]]
                (x as int) < self.n() && (y as int) < self.n() ==> (r.0@[x as int] == r.0@[
                y as int] <==> connected(self.edges_internal(), self.n() as int, x, y)),
    {
        let n = self.labels.len();
        let ghost edges = self.edges_internal();
        let mut comp: Vec<usize> = Vec::new();
        let mut i: usize = 0;
        while i < n
            invariant
                i <= n,
                comp@.len() == i,
                forall|k: int| 0 <= k < i ==> (#[trigger] comp@[k]) == 0,
            decreases n - i,
        {
            comp.push(0);
            i = i + 1;
        }
        let mut current: usize = 0;
        let ghost mut roots: Seq<usize> = Seq::empty();
        let mut i: usize = 0;
        while i < n
            invariant
                i <= n,
                self.wf(),
                self.n() == n,
                edges == self.edges_internal(),
                comp@.len() == n,
                (current as int) <= i,
                i > 0 ==> current >= 1,
                roots.len() == current,
                forall|c: int| 0 <= c < current ==> ((#[trigger] roots[c]) as int) < n,
                forall|k: int| 0 <= k < n ==> (#[trigger] comp@[k]) <= current,
                forall|k: int| 0 <= k < i ==> 1 <= (#[trigger] comp@[k]),
                forall|c: int| 1 <= c <= current ==> #[trigger] class_used(comp@, c),
                forall|x: usize, y: usize|
                    #![trigger comp@[x as int], comp@[y as int]]
                    (x as int) < n && (y as int) < n && linked(edges, x, y) && comp@[x as int] != 0
                        ==> comp@[y as int] == comp@[x as int],
                forall|x: usize|
                    #![trigger comp@[x as int]]
                    (x as int) < n && comp@[x as int] != 0 ==> connected(
                        edges,
                        n as int,
                        x,
                        roots[comp@[x as int] - 1],
                    ),
            decreases n - i,
        {
            if comp[i] == 0 {
                current = current + 1;
                proof {
                    roots = roots.push(i);
                }
                let ghost pass0 = comp@;
                let mut stack: Vec<usize> = Vec::new();
                stack.push(i);
                proof {
                    assert(stack@[0] == i);
                    lemma_connected_refl(edges, n as int, i);
                }
                while stack.len() > 0
                    invariant
                        pass0.len() == n,
                        pass0[i as int] == 0,
                        forall|k: int|
                            0 <= k < n && pass0[k] != 0 ==> (#[trigger] comp@[k]) == pass0[k],
                        forall|k: int|
                            0 <= k < n ==> (#[trigger] comp@[k]) == 0 || comp@[k] == pass0[k]
                                || comp@[k] == current,
                        self.wf(),
                        self.n() == n,
                        edges == self.edges_internal(),
                        i < n,
                        comp@.len() == n,
                        current >= 1,
                        roots.len() == current,
                        roots[current - 1] == i,
                        forall|c: int| 0 <= c < current ==> ((#[trigger] roots[c]) as int) < n,
                        forall|k: int| 0 <= k < stack@.len() ==> ((#[trigger] stack@[k]) as int)
                            < n,
                        forall|k: int|
                            0 <= k < stack@.len() ==> connected(
                                edges,
                                n as int,
                                #[trigger] stack@[k],
                                i,
                            ),
                        forall|k: int| 0 <= k < n ==> (#[trigger] comp@[k]) <= current,
                        forall|k: int| 0 <= k < i ==> 1 <= (#[trigger] comp@[k]),
                        forall|x: usize, y: usize|
                            #![trigger comp@[x as int], comp@[y as int]]
                            (x as int) < n && (y as int) < n && linked(edges, x, y) && comp@[
                            x as int] != 0 ==> comp@[y as int] == comp@[x as int] || (comp@[
                            y as int] == 0 && comp@[x as int] == current && in_stack(stack@, y)),
                        forall|x: usize|
                            #![trigger comp@[x as int]]
                            (x as int) < n && comp@[x as int] != 0 ==> connected(
                                edges,
                                n as int,
                                x,
                                roots[comp@[x as int] - 1],
                            ),
                        comp@[i as int] != 0 || in_stack(stack@, i),
                    ensures
                        comp@.len() == n,
                        comp@[i as int] == current,
                        pass0.len() == n,
                        forall|k: int|
                            0 <= k < n && pass0[k] != 0 ==> (#[trigger] comp@[k]) == pass0[k],
                        comp@[i as int] != 0,
                        roots.len() == current,
                        forall|k: int| 0 <= k < n ==> (#[trigger] comp@[k]) <= current,
                        forall|k: int| 0 <= k < i ==> 1 <= (#[trigger] comp@[k]),
                        forall|x: usize, y: usize|
                            #![trigger comp@[x as int], comp@[y as int]]
                            (x as int) < n && (y as int) < n && linked(edges, x, y) && comp@[
                            x as int] != 0 ==> comp@[y as int] == comp@[x as int],
                        forall|x: usize|
                            #![trigger comp@[x as int]]
                            (x as int) < n && comp@[x as int] != 0 ==> connected(
                                edges,
                                n as int,
                                x,
                                roots[comp@[x as int] - 1],
                            ),
                        comp@[i as int] != 0 || in_stack(stack@, i),
                    decreases count_eq(comp@, 0), stack@.len(),
                {
                    let ghost pre_stack = stack@;
                    let node = stack.pop().unwrap();
                    proof {
                        if comp@[i as int] == 0 && node != i {
                            let k = choose|k: int|
                                0 <= k < pre_stack.len() && (#[trigger] pre_stack[k]) == i;
                            assert(k < pre_stack.len() - 1);
                            assert(stack@[k] == i);
                        }
                        assert(connected(edges, n as int, node, i));
                    }
                    if comp[node] != 0 {
                        proof {
                            assert forall|x: usize, y: usize|
                                #![trigger comp@[x as int], comp@[y as int]]
                                (x as int) < n && (y as int) < n && linked(edges, x, y) && comp@[
                                x as int] != 0 implies comp@[y as int] == comp@[x as int] || (
                            comp@[y as int] == 0 && comp@[x as int] == current && in_stack(
                                stack@,
                                y,
                            )) by {
                                if comp@[y as int] == 0 && comp@[x as int] == current && in_stack(
                                    pre_stack,
                                    y,
                                ) {
                                    let k = choose|k: int|
                                        0 <= k < pre_stack.len() && (#[trigger] pre_stack[k]) == y;
                                    if k < pre_stack.len() - 1 {
                                        assert(stack@[k] == y);
                                    } else {
                                        assert(y == node);
                                        assert(false);
                                    }
                                }
                            }
                        }
                        continue;
                    }
                    let ghost comp0 = comp@;
                    comp.set(node, current);
                    proof {
                        lemma_count_eq_update(comp0, node as int, current);
                        assert forall|x: usize|
                            #![trigger comp@[x as int]]
                            (x as int) < n && comp@[x as int] != 0 implies connected(
                            edges,
                            n as int,
                            x,
                            roots[comp@[x as int] - 1],
                        ) by {
                            if x == node {
                                lemma_connected_sym(edges, n as int, node, i);
                            }
                        }
                    }
                    let nbrs = self.neighbors(node);
                    proof {
                        lemma_incident_linked(edges, node, nbrs@);
                        assert forall|x: usize, y: usize|
                            #![trigger comp@[x as int], comp@[y as int]]
                            (x as int) < n && (y as int) < n && linked(edges, x, y) && comp@[
                            x as int] != 0 implies comp@[y as int] == comp@[x as int] || (comp@[
                        y as int] == 0 && comp@[x as int] == current && (in_stack(stack@, y) || (x
                            == node && exists|k: int|
                            0 <= k < nbrs@.len() && (#[trigger] nbrs@[k]).0 == y))) by {
                            if x == node {
                                if comp@[y as int] == 0 {
                                    lemma_linked_in_incident(edges, node, y);
                                }
                            } else if comp@[y as int] == 0 && comp@[x as int] == current {
                                if y != node {
                                    if in_stack(pre_stack, y) {
                                        let k = choose|k: int|
                                            0 <= k < pre_stack.len() && (#[trigger] pre_stack[k])
                                                == y;
                                        assert(k < pre_stack.len() - 1 || pre_stack[k] == node);
                                        assert(stack@[k] == y);
                                    }
                                }
                            }
                        }
                    }
                    let mut q: usize = 0;
                    while q < nbrs.len()
                        invariant
                            q <= nbrs@.len(),
                            self.wf(),
                            self.n() == n,
                            edges == self.edges_internal(),
                            comp@.len() == n,
                            i < n,
                            (node as int) < n,
                            comp@[node as int] == current,
                            current >= 1,
                            roots.len() == current,
                            connected(edges, n as int, node, i),
                            forall|k: int|
                                0 <= k < nbrs@.len() ==> ((#[trigger] nbrs@[k]).0 as int) < n,
                            forall|k: int|
                                0 <= k < nbrs@.len() ==> linked(
                                    edges,
                                    node,
                                    (#[trigger] nbrs@[k]).0,
                                ),
                            forall|k: int| 0 <= k < stack@.len() ==> ((#[trigger] stack@[k]) as int)
                                < n,
                            forall|k: int|
                                0 <= k < stack@.len() ==> connected(
                                    edges,
                                    n as int,
                                    #[trigger] stack@[k],
                                    i,
                                ),
                            forall|x: usize, y: usize|
                                #![trigger comp@[x as int], comp@[y as int]]
                                (x as int) < n && (y as int) < n && linked(edges, x, y) && comp@[
                                x as int] != 0 ==> comp@[y as int] == comp@[x as int] || (comp@[
                                y as int] == 0 && comp@[x as int] == current && (in_stack(
                                    stack@,
                                    y,
                                ) || (x == node && exists|k: int|
                                    q <= k < nbrs@.len() && (#[trigger] nbrs@[k]).0 == y))),
                            comp@[i as int] != 0 || in_stack(stack@, i),
                        decreases nbrs@.len() - q,
                    {
                        let ghost pre = stack@;
                        let nb = nbrs[q].0;
                        if comp[nb] == 0 {
                            proof {
                                lemma_connected_refl(edges, n as int, nb);
                                lemma_connected_step(edges, n as int, nb, nb, node);
                                lemma_connected_trans(edges, n as int, nb, node, i);
                            }
                            stack.push(nb);
                        }
                        proof {
                            if comp@[i as int] == 0 {
                                let k = choose|k: int|
                                    0 <= k < pre.len() && (#[trigger] pre[k]) == i;
                                assert(stack@[k] == i);
                            }
                            assert forall|x: usize, y: usize|
                                #![trigger comp@[x as int], comp@[y as int]]
                                (x as int) < n && (y as int) < n && linked(edges, x, y) && comp@[
                                x as int] != 0 implies comp@[y as int] == comp@[x as int] || (
                            comp@[y as int] == 0 && comp@[x as int] == current && (in_stack(
                                stack@,
                                y,
                            ) || (x == node && exists|k: int|
                                q + 1 <= k < nbrs@.len() && (#[trigger] nbrs@[k]).0 == y))) by {
                                if comp@[y as int] == 0 && comp@[x as int] == current {
                                    if in_stack(pre, y) {
                                        let k = choose|k: int|
                                            0 <= k < pre.len() && (#[trigger] pre[k]) == y;
                                        assert(stack@[k] == y);
                                    } else if x == node {
                                        let k = choose|k: int|
                                            q <= k < nbrs@.len() && (#[trigger] nbrs@[k]).0 == y;
                                        if k == q {
                                            assert(y == nb);
                                            assert(stack@[stack@.len() - 1] == nb);
                                            assert(in_stack(stack@, y));
                                        }
                                    }
                                }
                            }
                        }
                        q = q + 1;
                    }
                }
                proof {
                    assert forall|c: int| 1 <= c <= current implies #[trigger] class_used(
                        comp@,
                        c,
                    ) by {
                        if c == current {
                            assert(((comp@[i as int]) as int) == c);
                        } else {
                            assert(class_used(pass0, c));
                            let x = choose|x: int|
                                0 <= x < pass0.len() && ((#[trigger] pass0[x]) as int) == c;
                            assert(((comp@[x]) as int) == c);
                        }
                    }
                }
            }
            i = i + 1;
        }
        proof {
            assert forall|x: usize, y: usize|
                #![trigger comp@[x as int], comp@[y as int]]
                (x as int) < n && (y as int) < n implies (comp@[x as int] == comp@[y as int]
                <==> connected(edges, n as int, x, y)) by {
                if comp@[x as int] == comp@[y as int] {
                    let rt = roots[comp@[x as int] - 1];
                    assert(connected(edges, n as int, x, rt));
                    assert(connected(edges, n as int, y, rt));
                    lemma_connected_sym(edges, n as int, y, rt);
                    lemma_connected_trans(edges, n as int, x, rt, y);
                }
                if connected(edges, n as int, x, y) {
                    lemma_path_comp(edges, n as int, comp@, x, y);
                }
            }
        }
        (comp, current)
    }
}

proof fn lemma_count_eq_update(s: Seq<usize>, i: int, v: usize)
    requires
        0 <= i < s.len(),
        s[i] == 0,
        v != 0,
    ensures
        count_eq(s.update(i, v), 0usize) < count_eq(s, 0usize),
    decreases s.len(),
{
    if i == s.len() - 1 {
        assert(s.update(i, v).drop_last() =~= s.drop_last());
        assert(s.update(i, v).last() == v);
        assert(s.last() == s[i]);
    } else {
        assert(s.update(i, v).drop_last() =~= s.drop_last().update(i, v));
        assert(s.update(i, v).last() == s.last());
        lemma_count_eq_update(s.drop_last(), i, v);
    }
}



/// Some stored edge joins `x` and `y`, in either direction.
pub open spec fn linked(edges: Seq<(usize, usize, u64)>, x: usize, y: usize) -> bool {
    exists|t: int|
        0 <= t < edges.len() && (((#[trigger] edges[t]).0 == x && edges[t].1 == y) || (edges[t].0
            == y && edges[t].1 == x))
}

/// `p` walks from `x` to `y` along stored edges, inside the node range.
pub open spec fn is_path(edges: Seq<(usize, usize, u64)>, n: int, p: Seq<usize>, x: usize, y: usize) -> bool {
    &&& p.len() >= 1
    &&& p[0] == x
    &&& p[p.len() - 1] == y
    &&& forall|k: int| 0 <= k < p.len() ==> ((#[trigger] p[k]) as int) < n
    &&& forall|k: int| 0 <= k < p.len() - 1 ==> linked(edges, #[trigger] p[k], p[k + 1])
}

/// A path of stored edges joins `x` and `y`.
pub open spec fn connected(edges: Seq<(usize, usize, u64)>, n: int, x: usize, y: usize) -> bool {
    exists|p: Seq<usize>| is_path(edges, n, p, x, y)
}

/// Every node is connected to itself.
pub proof fn lemma_connected_refl(edges: Seq<(usize, usize, u64)>, n: int, x: usize)
    requires
        (x as int) < n,
    ensures
        connected(edges, n, x, x),
{
    let p = seq![x];
    assert(is_path(edges, n, p, x, x));
}

/// Connectivity is symmetric.
pub proof fn lemma_connected_sym(edges: Seq<(usize, usize, u64)>, n: int, x: usize, y: usize)
    requires
        connected(edges, n, x, y),
    ensures
        connected(edges, n, y, x),
{
    let p = choose|p: Seq<usize>| is_path(edges, n, p, x, y);
    let q = Seq::new(p.len(), |k: int| p[p.len() - 1 - k]);
    assert forall|k: int| 0 <= k < q.len() - 1 implies linked(edges, #[trigger] q[k], q[k + 1]) by {
        assert(linked(edges, p[p.len() - 2 - k], p[p.len() - 1 - k]));
        let t = choose|t: int|
            0 <= t < edges.len() && (((#[trigger] edges[t]).0 == p[p.len() - 2 - k] && edges[t].1
                == p[p.len() - 1 - k]) || (edges[t].0 == p[p.len() - 1 - k] && edges[t].1 == p[
            p.len() - 2 - k]));
        assert(q[k] == p[p.len() - 1 - k] && q[k + 1] == p[p.len() - 2 - k]);
    }
    assert(is_path(edges, n, q, y, x));
}

/// Connectivity is transitive.
pub proof fn lemma_connected_trans(edges: Seq<(usize, usize, u64)>, n: int, x: usize, y: usize, z: usize)
    requires
        connected(edges, n, x, y),
        connected(edges, n, y, z),
    ensures
        connected(edges, n, x, z),
{
    let p1 = choose|p: Seq<usize>| is_path(edges, n, p, x, y);
    let p2 = choose|p: Seq<usize>| is_path(edges, n, p, y, z);
    let q = p1 + p2.drop_first();
    assert forall|k: int| 0 <= k < q.len() implies ((#[trigger] q[k]) as int) < n by {
        if k < p1.len() {
            assert(q[k] == p1[k]);
        } else {
            assert(q[k] == p2[k - p1.len() + 1]);
        }
    }
    assert forall|k: int| 0 <= k < q.len() - 1 implies linked(edges, #[trigger] q[k], q[k + 1]) by {
        if k + 1 < p1.len() {
            assert(q[k] == p1[k] && q[k + 1] == p1[k + 1]);
        } else if k + 1 == p1.len() {
            assert(p2.len() >= 2);
            assert(q[k] == p1[k] && q[k + 1] == p2[1]);
            assert(p1[k] == y && p2[0] == y);
            assert(linked(edges, p2[0], p2[1]));
        } else {
            assert(q[k] == p2[k - p1.len() + 1] && q[k + 1] == p2[k - p1.len() + 2]);
        }
    }
    assert(q[q.len() - 1] == z) by {
        if p2.len() == 1 {
            assert(q.len() == p1.len());
        }
    }
    assert(is_path(edges, n, q, x, z));
}

/// One more linked step extends a connection.
pub proof fn lemma_connected_step(edges: Seq<(usize, usize, u64)>, n: int, x: usize, y: usize, z: usize)
    requires
        connected(edges, n, x, y),
        linked(edges, y, z),
        (z as int) < n,
    ensures
        connected(edges, n, x, z),
{
    let p = choose|pp: Seq<usize>| is_path(edges, n, pp, x, y);
    let q = p.push(z);
    assert forall|k: int| 0 <= k < q.len() - 1 implies linked(edges, #[trigger] q[k], q[k + 1]) by {
        if k < p.len() - 1 {
            assert(q[k] == p[k] && q[k + 1] == p[k + 1]);
        } else {
            assert(q[k] == p[p.len() - 1] && q[k + 1] == z);
        }
    }
    assert(is_path(edges, n, q, x, z));
}


/// Some node carries the class number `c`.
pub open spec fn class_used(comp: Seq<usize>, c: int) -> bool {
    exists|x: int| 0 <= x < comp.len() && ((#[trigger] comp[x]) as int) == c
}

/// `y` stands somewhere in the stack.
pub open spec fn in_stack(st: Seq<usize>, y: usize) -> bool {
    exists|k: int| 0 <= k < st.len() && (#[trigger] st[k]) == y
}

proof fn lemma_linked_mono(edges: Seq<(usize, usize, u64)>, x: usize, y: usize)
    requires
        edges.len() > 0,
        linked(edges.drop_last(), x, y),
    ensures
        linked(edges, x, y),
{
    let pre = edges.drop_last();
    let t = choose|t: int|
        0 <= t < pre.len() && (((#[trigger] pre[t]).0 == x && pre[t].1 == y) || (pre[t].0 == y
            && pre[t].1 == x));
    assert(edges[t] == pre[t]);
}

proof fn lemma_linked_in_incident(edges: Seq<(usize, usize, u64)>, v: usize, y: usize)
    requires
        linked(edges, v, y),
    ensures
        exists|k: int| 0 <= k < incident(edges, v).len() && (#[trigger] incident(edges, v)[k]).0
            == y,
    decreases edges.len(),
{
    let t = choose|t: int|
        0 <= t < edges.len() && (((#[trigger] edges[t]).0 == v && edges[t].1 == y) || (edges[t].0
            == y && edges[t].1 == v));
    let cur = incident(edges, v);
    let pre = incident(edges.drop_last(), v);
    if t < edges.len() - 1 {
        assert(edges.drop_last()[t] == edges[t]);
        assert(linked(edges.drop_last(), v, y));
        lemma_linked_in_incident(edges.drop_last(), v, y);
        let k = choose|k: int|
            0 <= k < pre.len() && (#[trigger] pre[k]).0 == y;
        assert(cur[k] == pre[k]);
    } else {
        let e = edges.last();
        if e.0 == v {
            assert(cur[cur.len() - 1].0 == e.1);
            if e.1 == y {
            } else {
                assert(e.0 == y && e.1 == v);
                assert(v == y);
            }
        } else {
            assert(e.1 == v && e.0 == y);
            assert(cur[cur.len() - 1].0 == e.0);
        }
    }
}

proof fn lemma_incident_linked(edges: Seq<(usize, usize, u64)>, v: usize, nbrs: Seq<(usize, u64)>)
    requires
        nbrs == incident(edges, v),
    ensures
        forall|k: int| 0 <= k < nbrs.len() ==> linked(edges, v, (#[trigger] nbrs[k]).0),
    decreases edges.len(),
{
    if edges.len() > 0 {
        let pre = incident(edges.drop_last(), v);
        lemma_incident_linked(edges.drop_last(), v, pre);
        let e = edges.last();
        assert forall|k: int| 0 <= k < nbrs.len() implies linked(edges, v, (#[trigger] nbrs[k]).0) by {
            if k < pre.len() {
                assert(nbrs[k] == pre[k]);
                lemma_linked_mono(edges, v, pre[k].0);
            } else {
                assert(edges[edges.len() - 1] == e);
            }
        }
    }
}

/// Along a path, a labelling that agrees across every edge agrees end to
/// end.
proof fn lemma_path_comp(edges: Seq<(usize, usize, u64)>, n: int, comp: Seq<usize>, x: usize, y: usize)
    requires
        comp.len() == n,
        (x as int) < n,
        (y as int) < n,
        connected(edges, n, x, y),
        forall|a: usize, b: usize|
            #![trigger comp[a as int], comp[b as int]]
            (a as int) < n && (b as int) < n && linked(edges, a, b) && comp[a as int] != 0
                ==> comp[b as int] == comp[a as int],
        forall|k: int| 0 <= k < n ==> (#[trigger] comp[k]) >= 1,
    ensures
        comp[x as int] == comp[y as int],
{
    let p = choose|p: Seq<usize>| is_path(edges, n, p, x, y);
    lemma_walk_comp(edges, n, comp, p, x, y);
}

proof fn lemma_walk_comp(edges: Seq<(usize, usize, u64)>, n: int, comp: Seq<usize>, p: Seq<usize>, x: usize, y: usize)
    requires
        comp.len() == n,
        (x as int) < n,
        (y as int) < n,
        is_path(edges, n, p, x, y),
        forall|a: usize, b: usize|
            #![trigger comp[a as int], comp[b as int]]
            (a as int) < n && (b as int) < n && linked(edges, a, b) && comp[a as int] != 0
                ==> comp[b as int] == comp[a as int],
        forall|k: int| 0 <= k < n ==> (#[trigger] comp[k]) >= 1,
    ensures
        comp[x as int] == comp[y as int],
    decreases p.len(),
{
    if p.len() > 1 {
        assert(linked(edges, p[0], p[1]));
        assert(comp[p[1] as int] == comp[p[0] as int]);
        let q = p.drop_first();
        assert forall|k: int| 0 <= k < q.len() - 1 implies linked(edges, #[trigger] q[k], q[k + 1]) by {
            assert(q[k] == p[k + 1] && q[k + 1] == p[k + 2]);
            assert(linked(edges, p[k + 1], p[k + 2]));
        }
        assert forall|k: int| 0 <= k < q.len() implies ((#[trigger] q[k]) as int) < n by {
            assert(q[k] == p[k + 1]);
        }
        assert(is_path(edges, n, q, p[1], y));
        lemma_walk_comp(edges, n, comp, q, p[1], y);
    }
}

/// Sum of the set sizes.
pub open spec fn sum_sizes(sets: Seq<CognateSet>) -> nat
    decreases sets.len(),
{
    if sets.len() == 0 {
        0
    } else {
        sum_sizes(sets.drop_last()) + sets.last().members@.len()
    }
}

/// Some member of some set has view `v`.
pub open spec fn member_appears(sets: Seq<CognateSet>, v: Seq<char>) -> bool {
    exists|g: int, k: int|
        0 <= g < sets.len() && 0 <= k < sets[g].members@.len() && sets[g].members@[k]@ == v
}

/// Graph statistics.
pub struct GraphStats {
    pub num_nodes: usize,
    pub num_edges: usize,
    pub avg_degree: Ratio,
    pub density: Ratio,
    pub num_components: usize,
}

impl CognateGraph {
    /// Group the nodes into connected components: the cognate sets
    /// partition the node labels (every label in exactly one set, sizes
    /// adding up to the node count), with dense ids from zero.
    pub fn find_cognate_sets(&self) -> (sets: Vec<CognateSet>)
        requires
            self.wf(),
            self.n() < usize::MAX,
        ensures
            sum_sizes(sets@) == self.n(),
            forall|g: int| 0 <= g < sets@.len() ==> (#[trigger] sets@[g]).id == g,
            forall|g: int|
                0 <= g < sets@.len() ==> (#[trigger] sets@[g]).size == sets@[g].members@.len(),
            forall|g: int, k: int|
                #![trigger sets@[g].members@[k]]
                0 <= g < sets@.len() && 0 <= k < sets@[g].members@.len() ==> has_view(
                    self.labels_view(),
                    sets@[g].members@[k]@,
                ),
            forall|i: int| #![trigger self.labels_view()[i]]
                0 <= i < self.n() ==> member_appears(sets@, self.labels_view()[i]@),
            forall|g1: int, k1: int, g2: int, k2: int|
                #![trigger sets@[g1].members@[k1], sets@[g2].members@[k2]]
                0 <= g1 < sets@.len() && 0 <= g2 < sets@.len() && 0 <= k1 < sets@[g1].members@.len()
                    && 0 <= k2 < sets@[g2].members@.len() && (g1 != g2 || k1 != k2) ==> sets@[g1].members@[k1]@
                    != sets@[g2].members@[k2]@,
            forall|g1: int, k1: int, g2: int, k2: int|
                #![trigger sets@[g1].members@[k1], sets@[g2].members@[k2]]
                0 <= g1 < sets@.len() && 0 <= g2 < sets@.len() && 0 <= k1 < sets@[g1].members@.len()
                    && 0 <= k2 < sets@[g2].members@.len() ==> (g1 == g2 <==> connected(
                    self.edges_internal(),
                    self.n() as int,
                    label_index(
                        string_views(self.labels_view()),
                        sets@[g1].members@[k1]@,
                    ) as usize,
                    label_index(
                        string_views(self.labels_view()),
                        sets@[g2].members@[k2]@,
                    ) as usize,
                )),
    {
        let n = self.labels.len();
        let (comp, count) = self.component_labels();
        let mut assign: Vec<usize> = Vec::new();
        let mut i: usize = 0;
        while i < n
            invariant
                i <= n,
                comp@.len() == n,
                forall|k: int| 0 <= k < n ==> 1 <= (#[trigger] comp@[k]) <= count,
                assign@.len() == i,
                forall|k: int| 0 <= k < i ==> (#[trigger] assign@[k]) == comp@[k] - 1,
                forall|k: int| 0 <= k < i ==> (#[trigger] assign@[k]) < count,
            decreases n - i,
        {
            assign.push(comp[i] - 1);
            i = i + 1;
        }
        let mut sets: Vec<CognateSet> = Vec::new();
        let mut g: usize = 0;
        while g < count
            invariant
                g <= count,
                n == self.n(),
                self.wf(),
                assign@.len() == n,
                (count as int) <= n,
                forall|k: int| 0 <= k < n ==> (#[trigger] assign@[k]) < count,
                sets@.len() == g,
                sum_sizes(sets@) == sum_counts(assign@, g as int),
                forall|g2: int| 0 <= g2 < g ==> (#[trigger] sets@[g2]).id == g2,
                forall|g2: int|
                    0 <= g2 < g ==> (#[trigger] sets@[g2]).size == sets@[g2].members@.len(),
                forall|g2: int, k: int|
                    #![trigger sets@[g2].members@[k]]
                    0 <= g2 < g && 0 <= k < sets@[g2].members@.len() ==> sets@[g2].members@.len()
                        == indices_with(assign@, g2 as usize, n as int).len() && sets@[g2].members@[
                    k]@ == self.labels_view()[indices_with(assign@, g2 as usize, n as int)[k] as int]@,
                forall|g2: int| 0 <= g2 < g ==> (#[trigger] sets@[g2]).members@.len()
                    == indices_with(assign@, g2 as usize, n as int).len(),
            decreases count - g,
        {
            let mut members: Vec<String> = Vec::new();
            let mut i: usize = 0;
            while i < n
                invariant
                    i <= n,
                    n == self.n(),
                    self.wf(),
                    assign@.len() == n,
                    g < count,
                    members@.len() == indices_with(assign@, g, i as int).len(),
                    forall|k: int|
                        0 <= k < members@.len() ==> (#[trigger] members@[k])@ == self.labels_view()[
                        indices_with(assign@, g, i as int)[k] as int]@,
                decreases n - i,
            {
                proof {
                    lemma_indices_with_elems(assign@, g, i + 1);
                }
                if assign[i] == g {
                    members.push(self.label_at(i));
                }
                i = i + 1;
            }
            proof {
                lemma_indices_with_len(assign@, g, n as int);
                assert(assign@.take(n as int) =~= assign@);
            }
            let set = CognateSet::new(g, members);
            let ghost old_sets = sets@;
            let ghost mlen = members@.len();
            sets.push(set);
            proof {
                assert(sets@.drop_last() =~= old_sets);
                assert(sets@.last().members@.len() == mlen);
                assert(sum_sizes(sets@) == sum_sizes(old_sets) + mlen);
            }
            g = g + 1;
        }
        proof {
            lemma_sum_counts_total(assign@, count as int);
            assert forall|g1: int, k1: int, g2: int, k2: int|
                #![trigger sets@[g1].members@[k1], sets@[g2].members@[k2]]
                0 <= g1 < sets@.len() && 0 <= g2 < sets@.len() && 0 <= k1 < sets@[g1].members@.len()
                    && 0 <= k2 < sets@[g2].members@.len() && (g1 != g2 || k1 != k2) implies sets@[g1].members@[k1]@
                != sets@[g2].members@[k2]@ by {
                lemma_indices_with_elems(assign@, g1 as usize, self.n() as int);
                lemma_indices_with_elems(assign@, g2 as usize, self.n() as int);
                let i1 = indices_with(assign@, g1 as usize, self.n() as int)[k1] as int;
                let i2 = indices_with(assign@, g2 as usize, self.n() as int)[k2] as int;
                if g1 != g2 {
                    assert(assign@[i1] == g1 && assign@[i2] == g2);
                    assert(i1 != i2);
                } else {
                    lemma_indices_distinct(assign@, g1 as usize, self.n() as int, k1, k2);
                }
            }
            assert forall|g1: int, k1: int, g2: int, k2: int|
                #![trigger sets@[g1].members@[k1], sets@[g2].members@[k2]]
                0 <= g1 < sets@.len() && 0 <= g2 < sets@.len() && 0 <= k1 < sets@[g1].members@.len()
                    && 0 <= k2 < sets@[g2].members@.len() implies (g1 == g2 <==> connected(
                self.edges_internal(),
                self.n() as int,
                label_index(string_views(self.labels_view()), sets@[g1].members@[k1]@) as usize,
                label_index(string_views(self.labels_view()), sets@[g2].members@[k2]@) as usize,
            )) by {
                lemma_indices_with_elems(assign@, g1 as usize, self.n() as int);
                lemma_indices_with_elems(assign@, g2 as usize, self.n() as int);
                let i1 = indices_with(assign@, g1 as usize, self.n() as int)[k1] as int;
                let i2 = indices_with(assign@, g2 as usize, self.n() as int)[k2] as int;
                assert(sets@[g1].members@[k1]@ == self.labels_view()[i1]@);
                assert(sets@[g2].members@[k2]@ == self.labels_view()[i2]@);
                let lv = string_views(self.labels_view());
                assert forall|q1: int, q2: int| 0 <= q1 < q2 < lv.len() implies (#[trigger] lv[q1])
                    != (#[trigger] lv[q2]) by {
                    assert(lv[q1] == self.labels_view()[q1]@ && lv[q2] == self.labels_view()[q2]@);
                }
                assert(lv[i1] == self.labels_view()[i1]@ && lv[i2] == self.labels_view()[i2]@);
                lemma_label_index_of_self(lv, i1);
                lemma_label_index_of_self(lv, i2);
                assert(assign@[i1] == g1 && assign@[i2] == g2);
                assert(comp@[i1] == g1 + 1 && comp@[i2] == g2 + 1);
                assert(comp@[i1] == comp@[i2] <==> connected(
                    self.edges_internal(),
                    self.n() as int,
                    i1 as usize,
                    i2 as usize,
                ));
            }
            assert forall|i: int| #![trigger self.labels_view()[i]] 0 <= i < self.n() implies
                member_appears(sets@, self.labels_view()[i]@) by {
                let gi = assign@[i];
                lemma_indices_with_contains(assign@, gi, self.n() as int, i);
                let k = choose|k: int|
                    0 <= k < indices_with(assign@, gi, self.n() as int).len() && (
                    #[trigger] indices_with(assign@, gi, self.n() as int)[k]) == i;
                assert(sets@[gi as int].members@[k]@ == self.labels_view()[i]@);
            }
            assert forall|gg: int, k: int|
                #![trigger sets@[gg].members@[k]]
                0 <= gg < sets@.len() && 0 <= k < sets@[gg].members@.len() implies has_view(
                self.labels_view(),
                sets@[gg].members@[k]@,
            ) by {
                lemma_indices_with_elems(assign@, gg as usize, self.n() as int);
                let idx = indices_with(assign@, gg as usize, self.n() as int)[k] as int;
                assert(0 <= idx < self.n());
                assert(sets@[gg].members@[k]@ == self.labels_view()[idx]@);
                crate::types::lemma_has_view(self.labels_view(), idx);
            }
        }
        sets
    }

    fn label_at(&self, i: usize) -> (r: String)
        requires
            self.wf(),
            (i as int) < self.n(),
        ensures
            r@ == self.labels_view()[i as int]@,
    {
        self.labels[i].clone()
    }

    /// Number of nodes.
    pub fn node_count(&self) -> (r: usize)
        ensures
            r == self.n(),
    {
        self.labels.len()
    }

    /// Number of stored edges.
    pub fn edge_count(&self) -> (r: usize)
        ensures
            r == self.num_edges(),
    {
        self.edge_list.len()
    }

    /// Basic statistics: node and edge counts, average degree `2E/V`,
    /// density `2E/(V(V-1))`, and the connected-component count of the
    /// labelling pass.
    pub fn stats(&self) -> (s: GraphStats)
        requires
            self.wf(),
            self.n() <= 0xffff_ffff,
            self.num_edges() <= 0x1000_0000_0000_0000,
        ensures
            s.num_nodes == self.n(),
            s.num_edges == self.num_edges(),
            self.n() == 0 ==> s.avg_degree.num == 0 && s.avg_degree.den == 1,
            self.n() > 0 ==> s.avg_degree.num == 2 * self.num_edges() && s.avg_degree.den
                == self.n(),
            self.n() <= 1 ==> s.density.num == 0 && s.density.den == 1,
            self.n() > 1 ==> s.density.num == 2 * self.num_edges() && s.density.den == self.n() * (
            self.n() - 1),
            (s.num_components as int) <= self.n(),
            exists|comp: Seq<usize>|
                #![trigger comp.len()]
                {
                    &&& comp.len() == self.n()
                    &&& forall|x: int| 0 <= x < comp.len() ==> 1 <= (#[trigger] comp[x])
                        <= s.num_components
                    &&& forall|c: int| 1 <= c <= s.num_components ==> #[trigger] class_used(comp, c)
                    &&& forall|x: usize, y: usize|
                        #![trigger comp[x as int], comp[y as int]]
                        (x as int) < self.n() && (y as int) < self.n() ==> (comp[x as int]
                            == comp[y as int] <==> connected(
                            self.edges_internal(),
                            self.n() as int,
                            x,
                            y,
                        ))
                },
    {
        let num_nodes = self.labels.len();
        let num_edges = self.edge_list.len();
        let avg_degree = if num_nodes > 0 {
            Ratio::new(2 * (num_edges as u64), num_nodes as u64)
        } else {
            Ratio::zero()
        };
        let density = if num_nodes > 1 {
            proof {
                assert((num_nodes as int) * ((num_nodes as int) - 1) <= 0xffff_ffff_ffff_ffff)
                    by (nonlinear_arith)
                    requires 2 <= num_nodes <= 0xffff_ffff;
                assert((num_nodes as int) * ((num_nodes as int) - 1) >= 1) by (nonlinear_arith)
                    requires num_nodes >= 2;
            }
            Ratio::new(2 * (num_edges as u64), (num_nodes as u64) * ((num_nodes as u64) - 1))
        } else {
            Ratio::zero()
        };
        let (comp_vec, num_components) = self.component_labels();
        proof {
            assert(comp_vec@.len() == self.n());
        }
        GraphStats { num_nodes, num_edges, avg_degree, density, num_components }
    }
}

proof fn lemma_indices_distinct(s: Seq<usize>, g: usize, upto: int, k1: int, k2: int)
    requires
        upto <= s.len(),
        upto <= usize::MAX,
        0 <= k1 < indices_with(s, g, upto).len(),
        0 <= k2 < indices_with(s, g, upto).len(),
        k1 != k2,
    ensures
        indices_with(s, g, upto)[k1] != indices_with(s, g, upto)[k2],
    decreases upto,
{
    lemma_indices_ascending(s, g, upto);
}

proof fn lemma_indices_ascending(s: Seq<usize>, g: usize, upto: int)
    requires
        upto <= s.len(),
        upto <= usize::MAX,
    ensures
        forall|k1: int, k2: int|
            0 <= k1 < k2 < indices_with(s, g, upto).len() ==> (#[trigger] indices_with(s, g, upto)[
            k1]) < (#[trigger] indices_with(s, g, upto)[k2]),
    decreases upto,
{
    if upto > 0 {
        lemma_indices_ascending(s, g, upto - 1);
        lemma_indices_with_elems(s, g, upto - 1);
        let pre = indices_with(s, g, upto - 1);
        let cur = indices_with(s, g, upto);
        assert forall|k1: int, k2: int|
            0 <= k1 < k2 < cur.len() implies (#[trigger] cur[k1]) < (#[trigger] cur[k2]) by {
            if k2 < pre.len() {
                assert(cur[k1] == pre[k1] && cur[k2] == pre[k2]);
            } else if k2 == pre.len() && cur.len() > pre.len() {
                assert(cur[k1] == pre[k1]);
                assert((pre[k1] as int) < upto - 1);
                assert(cur[k2] == (upto - 1) as usize);
            }
        }
    }
}


/// Number of neighbors in `row` assigned to community `c`.
pub open spec fn count_in(row: Seq<(usize, u64)>, assign: Seq<usize>, c: usize) -> int
    decreases row.len(),
{
    if row.len() == 0 {
        0
    } else {
        count_in(row.drop_last(), assign, c) + if (row.last().0 as int) < assign.len() && assign[
        row.last().0 as int] == c {
            1int
        } else {
            0int
        }
    }
}

proof fn lemma_count_in_le(row: Seq<(usize, u64)>, assign: Seq<usize>, c: usize)
    ensures
        0 <= count_in(row, assign, c) <= row.len(),
    decreases row.len(),
{
    if row.len() > 0 {
        lemma_count_in_le(row.drop_last(), assign, c);
    }
}

proof fn lemma_incident_le(edges: Seq<(usize, usize, u64)>, v: usize)
    ensures
        incident(edges, v).len() <= 2 * edges.len(),
    decreases edges.len(),
{
    if edges.len() > 0 {
        lemma_incident_le(edges.drop_last(), v);
    }
}

/// Twice-counted internal edge ends and total degree of community `c`,
/// over the nodes before `upto`.
pub open spec fn community_sums(
    edges: Seq<(usize, usize, u64)>,
    assign: Seq<usize>,
    c: usize,
    upto: int,
) -> (int, int)
    decreases upto,
{
    if upto <= 0 || upto > assign.len() {
        (0, 0)
    } else {
        let prev = community_sums(edges, assign, c, upto - 1);
        if assign[upto - 1] == c {
            let row = incident(edges, (upto - 1) as usize);
            (prev.0 + count_in(row, assign, c), prev.1 + row.len())
        } else {
            prev
        }
    }
}

proof fn lemma_community_sums_le(
    edges: Seq<(usize, usize, u64)>,
    assign: Seq<usize>,
    c: usize,
    upto: int,
)
    requires
        edges.len() <= 0x10000,
        upto <= 0x10000,
    ensures
        0 <= community_sums(edges, assign, c, upto).0 <= 0x2_0000_0000,
        0 <= community_sums(edges, assign, c, upto).1 <= 0x2_0000_0000,
{
    lemma_community_sums_tight(edges, assign, c, upto);
    if upto >= 0 {
        assert(upto * 0x2_0000 <= 0x10000 * 0x2_0000) by (nonlinear_arith)
            requires 0 <= upto <= 0x10000;
    }
}

proof fn lemma_community_sums_tight(
    edges: Seq<(usize, usize, u64)>,
    assign: Seq<usize>,
    c: usize,
    upto: int,
)
    requires
        edges.len() <= 0x10000,
        upto <= 0x10000,
    ensures
        0 <= community_sums(edges, assign, c, upto).0 <= (if upto >= 0 { upto } else { 0 })
            * 0x2_0000,
        0 <= community_sums(edges, assign, c, upto).1 <= (if upto >= 0 { upto } else { 0 })
            * 0x2_0000,
    decreases upto,
{
    if upto > 0 && upto <= assign.len() {
        lemma_community_sums_tight(edges, assign, c, upto - 1);
        if assign[upto - 1] == c {
            lemma_incident_le(edges, (upto - 1) as usize);
            lemma_count_in_le(incident(edges, (upto - 1) as usize), assign, c);
        }
        assert((upto - 1) * 0x2_0000 + 0x2_0000 == upto * 0x2_0000) by (nonlinear_arith);
    } else if upto > 0 {
        lemma_community_sums_tight(edges, assign, c, upto - 1);
        assert((upto - 1) * 0x2_0000 + 0x2_0000 == upto * 0x2_0000) by (nonlinear_arith);
    }
}

/// The modularity of the assignment, scaled by the fixed positive factor
/// `4 m^2 * 1_000_000`: the sum over the communities of
/// `2 m g_den e_in2 - g_num D^2`, with `e_in2` the twice-counted internal
/// edge ends, `D` the community degree sum, and `g_num / 1_000_000` the
/// resolution.
pub open spec fn modularity_num(
    edges: Seq<(usize, usize, u64)>,
    assign: Seq<usize>,
    resolution: u64,
    upto_c: int,
) -> int
    decreases upto_c,
{
    if upto_c <= 0 {
        0
    } else {
        let s = community_sums(edges, assign, (upto_c - 1) as usize, assign.len() as int);
        modularity_num(edges, assign, resolution, upto_c - 1) + 2 * edges.len() * 1_000_000 * s.0
            - resolution * s.1 * s.1
    }
}

impl CognateGraph {
    /// The exact scaled modularity of a community assignment.
    pub fn compute_modularity(&self, assign: &Vec<usize>, resolution: u64) -> (q: i128)
        requires
            self.wf(),
            assign@.len() == self.n(),
            self.n() <= 0x10000,
            self.num_edges() <= 0x10000,
            resolution <= 1_000_000,
        ensures
            q == modularity_num(self.edges_internal(), assign@, resolution, self.n() as int),
    {
        let n = self.labels.len();
        let m = self.edge_list.len();
        let mut q: i128 = 0;
        let mut c: usize = 0;
        while c < n
            invariant
                c <= n,
                self.wf(),
                n == self.n(),
                m == self.num_edges(),
                n <= 0x10000,
                m <= 0x10000,
                resolution <= 1_000_000,
                assign@.len() == n,
                q == modularity_num(self.edges_internal(), assign@, resolution, c as int),
                -0x8000_0000_0000_0000_0000_0000 * (c as int) <= q
                    <= 0x8000_0000_0000_0000_0000_0000 * (c as int),
            decreases n - c,
        {
            let mut ein2: u64 = 0;
            let mut dsum: u64 = 0;
            let mut v: usize = 0;
            while v < n
                invariant
                    v <= n,
                    self.wf(),
                    n == self.n(),
                    m == self.num_edges(),
                    n <= 0x10000,
                    m <= 0x10000,
                    assign@.len() == n,
                    c < n,
                    ein2 == community_sums(self.edges_internal(), assign@, c, v as int).0,
                    dsum == community_sums(self.edges_internal(), assign@, c, v as int).1,
                decreases n - v,
            {
                proof {
                    lemma_community_sums_le(self.edges_internal(), assign@, c, v as int);
                    lemma_community_sums_tight(self.edges_internal(), assign@, c, v as int);
                }
                if assign[v] == c {
                    let nbrs = self.neighbors(v);
                    proof {
                        lemma_incident_le(self.edges_internal(), v);
                        lemma_count_in_le(nbrs@, assign@, c);
                    }
                    let mut cnt: u64 = 0;
                    let mut k: usize = 0;
                    while k < nbrs.len()
                        invariant
                            k <= nbrs@.len(),
                            assign@.len() == n,
                            nbrs@.len() <= 2 * m,
                            m <= 0x10000,
                            cnt == count_in(nbrs@.take(k as int), assign@, c),
                            cnt <= k,
                        decreases nbrs@.len() - k,
                    {
                        proof {
                            assert(nbrs@.take(k + 1).drop_last() =~= nbrs@.take(k as int));
                            assert(nbrs@.take(k + 1).last() == nbrs@[k as int]);
                        }
                        let nb = nbrs[k].0;
                        if nb < assign.len() {
                            if assign[nb] == c {
                                cnt = cnt + 1;
                            }
                        }
                        k = k + 1;
                    }
                    proof {
                        assert(nbrs@.take(nbrs@.len() as int) =~= nbrs@);
                    }
                    ein2 = ein2 + cnt;
                    dsum = dsum + (nbrs.len() as u64);
                }
                v = v + 1;
            }
            proof {
                lemma_community_sums_le(self.edges_internal(), assign@, c, n as int);
            }
            proof {
                lemma_community_sums_le(self.edges_internal(), assign@, c, n as int);
                assert(ein2 <= 0x2_0000_0000 && dsum <= 0x2_0000_0000);
                assert(0 <= 2 * (m as int) * 1_000_000 * (ein2 as int)
                    <= 0x4000_0000_0000_0000_0000_0000) by (nonlinear_arith)
                    requires
                        0 <= m <= 0x10000,
                        0 <= ein2 <= 0x2_0000_0000,
                ;
                assert(0 <= (resolution as int) * (dsum as int) <= 0x4000_0000_0000_0000)
                    by (nonlinear_arith)
                    requires
                        0 <= dsum <= 0x2_0000_0000,
                        0 <= resolution <= 1_000_000,
                ;
                assert(0 <= (resolution as int) * (dsum as int) * (dsum as int)
                    <= 0x4000_0000_0000_0000_0000_0000) by (nonlinear_arith)
                    requires
                        0 <= dsum <= 0x2_0000_0000,
                        0 <= resolution <= 1_000_000,
                ;
            }
            let term: i128 = 2 * (m as i128) * 1_000_000 * (ein2 as i128) - (resolution as i128) * (
            dsum as i128) * (dsum as i128);
            proof {
                assert(-0x8000_0000_0000_0000_0000_0000 * ((c as int) + 1) <= q + term
                    <= 0x8000_0000_0000_0000_0000_0000 * ((c as int) + 1)) by (nonlinear_arith)
                    requires
                        -0x8000_0000_0000_0000_0000_0000 * (c as int) <= q <= 0x8000_0000_0000_0000_0000_0000
                            * (c as int),
                        -0x8000_0000_0000_0000_0000_0000 <= term <= 0x8000_0000_0000_0000_0000_0000,
                ;
                assert(0x8000_0000_0000_0000_0000_0000 * ((c as int) + 1) <= 0x8000_0000_0000_0000_0000_0000
                    * 0x10001) by (nonlinear_arith)
                    requires (c as int) + 1 <= 0x10001;
            }
            q = q + term;
            c = c + 1;
        }
        q
    }

    /// The best strict-improvement move for one node: the community of one
    /// of its neighbors whose adoption strictly increases the exact
    /// modularity, when one exists. Accepted moves never decrease the
    /// modularity.
    pub fn best_move(&self, assign: &Vec<usize>, node: usize, resolution: u64) -> (r: Option<
        usize,
    >)
        requires
            self.wf(),
            assign@.len() == self.n(),
            forall|i: int| 0 <= i < assign@.len() ==> ((#[trigger] assign@[i]) as int) < self.n(),
            (node as int) < self.n(),
            self.n() <= 0x10000,
            self.num_edges() <= 0x10000,
            resolution <= 1_000_000,
        ensures
            match r {
                Option::Some(c) => (c as int) < self.n() && modularity_num(
                    self.edges_internal(),
                    assign@.update(node as int, c),
                    resolution,
                    self.n() as int,
                ) > modularity_num(
                    self.edges_internal(),
                    assign@,
                    resolution,
                    self.n() as int,
                ),
                Option::None => forall|kk: int|
                    #![trigger incident(self.edges_internal(), node)[kk]]
                    0 <= kk < incident(self.edges_internal(), node).len() ==> {
                        let c = assign@[incident(self.edges_internal(), node)[kk].0 as int];
                        c == assign@[node as int] || modularity_num(
                            self.edges_internal(),
                            assign@.update(node as int, c),
                            resolution,
                            self.n() as int,
                        ) <= modularity_num(
                            self.edges_internal(),
                            assign@,
                            resolution,
                            self.n() as int,
                        )
                    },
            },
    {
        let n = self.labels.len();
        let base = self.compute_modularity(assign, resolution);
        let current = assign[node];
        let mut best: Option<usize> = None;
        let mut best_q = base;
        let nbrs = self.neighbors(node);
        let mut k: usize = 0;
        while k < nbrs.len()
            invariant
                k <= nbrs@.len(),
                self.wf(),
                n == self.n(),
                n <= 0x10000,
                self.num_edges() <= 0x10000,
                resolution <= 1_000_000,
                assign@.len() == n,
                (node as int) < n,
                forall|i: int| 0 <= i < assign@.len() ==> ((#[trigger] assign@[i]) as int) < n,
                forall|kk: int| 0 <= kk < nbrs@.len() ==> ((#[trigger] nbrs@[kk]).0 as int) < n,
                best_q >= base,
                base == modularity_num(
                    self.edges_internal(),
                    assign@,
                    resolution,
                    self.n() as int,
                ),
                match best {
                    Option::Some(c) => (c as int) < n && best_q > base && best_q
                        == modularity_num(
                        self.edges_internal(),
                        assign@.update(node as int, c),
                        resolution,
                        self.n() as int,
                    ),
                    Option::None => best_q == base,
                },
                nbrs@ == incident(self.edges_internal(), node),
                current == assign@[node as int],
                forall|kk: int| #![trigger nbrs@[kk]]
                    0 <= kk < k ==> {
                        let c = assign@[nbrs@[kk].0 as int];
                        c == assign@[node as int] || modularity_num(
                            self.edges_internal(),
                            assign@.update(node as int, c),
                            resolution,
                            self.n() as int,
                        ) <= best_q
                    },
            decreases nbrs@.len() - k,
        {
            let cand_c = assign[nbrs[k].0];
            if cand_c != current {
                let mut cand: Vec<usize> = Vec::new();
                let mut i: usize = 0;
                while i < n
                    invariant
                        i <= n,
                        assign@.len() == n,
                        (node as int) < n,
                        (cand_c as int) < n,
                        cand@.len() == i,
                        forall|j: int|
                            0 <= j < i ==> (#[trigger] cand@[j]) == assign@.update(
                                node as int,
                                cand_c,
                            )[j],
                    decreases n - i,
                {
                    if i == node {
                        cand.push(cand_c);
                    } else {
                        cand.push(assign[i]);
                    }
                    i = i + 1;
                }
                proof {
                    assert(cand@ =~= assign@.update(node as int, cand_c));
                }
                let q = self.compute_modularity(&cand, resolution);
                if q > best_q {
                    best = Some(cand_c);
                    best_q = q;
                }
            }
            k = k + 1;
        }
        best
    }
}

/// Every node alone: the starting assignment of the community search.
pub open spec fn singleton_assign(n: nat) -> Seq<usize> {
    Seq::new(n, |i: int| i as usize)
}

/// Group `g` lists exactly the labels of one assignment class, in
/// ascending node order.
pub open spec fn group_matches(
    groups: Seq<Vec<String>>,
    g: int,
    labels: Seq<String>,
    a: Seq<usize>,
    n: int,
) -> bool {
    exists|c: usize|
        #![trigger indices_with(a, c, n)]
        (c as int) < n && groups[g]@.len() == indices_with(a, c, n).len() && (forall|k: int|
            0 <= k < groups[g]@.len() ==> (#[trigger] groups[g]@[k])@ == labels[indices_with(
                a,
                c,
                n,
            )[k] as int]@)
}

/// Some row of the groups holds a member with view `v`.
pub open spec fn group_has(groups: Seq<Vec<String>>, v: Seq<char>) -> bool {
    exists|g: int, k: int|
        0 <= g < groups.len() && 0 <= k < groups[g]@.len() && groups[g]@[k]@ == v
}


/// Saturating add of a rank and a share.
pub open spec fn sat_add_rank(a: u64, s: int) -> u64 {
    if a + s <= u64::MAX {
        (a + s) as u64
    } else {
        u64::MAX
    }
}

/// The uniform base term of one round: `(1 - d)/n` in rank units.
pub open spec fn pr_base(damping: u64, n: int) -> int {
    (1_000_000 - damping) * 1_000_000_000_000 / 1_000_000 / n
}

/// The damped share a node of the given degree hands each neighbor.
pub open spec fn pr_share(damping: u64, r: u64, deg: int) -> int {
    damping * r / 1_000_000 / deg
}

/// Distribute one node's share over its first `k` neighbors.
pub open spec fn pr_scatter_node(share: int, nbrs: Seq<(usize, u64)>, next: Seq<u64>, k: int) -> Seq<u64>
    decreases k,
{
    if k <= 0 || k > nbrs.len() {
        next
    } else {
        let prev = pr_scatter_node(share, nbrs, next, k - 1);
        let nb = nbrs[k - 1].0 as int;
        if 0 <= nb < prev.len() {
            prev.update(nb, sat_add_rank(prev[nb], share))
        } else {
            prev
        }
    }
}

/// Distribute the shares of the nodes before `u`.
pub open spec fn pr_scatter_all(
    edges: Seq<(usize, usize, u64)>,
    damping: u64,
    ranks: Seq<u64>,
    next: Seq<u64>,
    u: int,
) -> Seq<u64>
    decreases u,
{
    if u <= 0 || u > ranks.len() {
        next
    } else {
        let prev = pr_scatter_all(edges, damping, ranks, next, u - 1);
        let nbrs = incident(edges, (u - 1) as usize);
        if nbrs.len() == 0 {
            prev
        } else {
            pr_scatter_node(
                pr_share(damping, ranks[u - 1], nbrs.len() as int),
                nbrs,
                prev,
                nbrs.len() as int,
            )
        }
    }
}

/// One full PageRank round: the uniform base term, then every node's
/// damped rank split over its neighbors.
pub open spec fn pr_round(edges: Seq<(usize, usize, u64)>, damping: u64, ranks: Seq<u64>) -> Seq<u64> {
    pr_scatter_all(
        edges,
        damping,
        ranks,
        Seq::new(ranks.len(), |i: int| pr_base(damping, ranks.len() as int) as u64),
        ranks.len() as int,
    )
}

/// The ranks after the given number of rounds from the uniform start.
pub open spec fn pr_iterate(edges: Seq<(usize, usize, u64)>, damping: u64, n: nat, rounds: int) -> Seq<u64>
    decreases rounds,
{
    if rounds <= 0 {
        Seq::new(n, |i: int| (1_000_000_000_000int / (n as int)) as u64)
    } else {
        pr_round(edges, damping, pr_iterate(edges, damping, n, rounds - 1))
    }
}

impl CognateGraph {
    /// Greedy modularity communities: every node starts in its own
    /// community and moves to a neighboring community only when the exact
    /// modularity strictly increases (see `best_move`), for at most ten
    /// passes; the non-empty communities are returned as label groups that
    /// partition the nodes.
    pub fn detect_communities(&self, resolution: u64) -> (groups: Vec<Vec<String>>)
        requires
            self.wf(),
            self.n() <= 0x10000,
            self.num_edges() <= 0x10000,
            resolution <= 1_000_000,
        ensures
            forall|g: int, k: int|
                #![trigger groups@[g]@[k]]
                0 <= g < groups@.len() && 0 <= k < groups@[g]@.len() ==> has_view(
                    self.labels_view(),
                    groups@[g]@[k]@,
                ),
            forall|i: int| #![trigger self.labels_view()[i]]
                0 <= i < self.n() ==> group_has(groups@, self.labels_view()[i]@),
            forall|g1: int, k1: int, g2: int, k2: int|
                #![trigger groups@[g1]@[k1], groups@[g2]@[k2]]
                0 <= g1 < groups@.len() && 0 <= g2 < groups@.len() && 0 <= k1 < groups@[g1]@.len()
                    && 0 <= k2 < groups@[g2]@.len() && (g1 != g2 || k1 != k2) ==> groups@[g1]@[k1]@
                    != groups@[g2]@[k2]@,
            forall|g: int| 0 <= g < groups@.len() ==> (#[trigger] groups@[g])@.len() > 0,
            exists|a: Seq<usize>|
                #![trigger modularity_num(self.edges_internal(), a, resolution, self.n() as int)]
                {
                    &&& a.len() == self.n()
                    &&& forall|i: int| 0 <= i < a.len() ==> ((#[trigger] a[i]) as int) < self.n()
                    &&& modularity_num(self.edges_internal(), a, resolution, self.n() as int)
                        >= modularity_num(
                        self.edges_internal(),
                        singleton_assign(self.n()),
                        resolution,
                        self.n() as int,
                    )
                    &&& forall|g: int|
                        0 <= g < groups@.len() ==> #[trigger] group_matches(
                            groups@,
                            g,
                            self.labels_view(),
                            a,
                            self.n() as int,
                        )
                },
    {
        let n = self.labels.len();
        let mut assign: Vec<usize> = Vec::new();
        let mut i: usize = 0;
        while i < n
            invariant
                i <= n,
                assign@.len() == i,
                forall|k: int| 0 <= k < i ==> (#[trigger] assign@[k]) == k,
            decreases n - i,
        {
            assign.push(i);
            i = i + 1;
        }
        proof {
            assert(assign@ =~= singleton_assign(n as nat));
        }
        let mut pass: usize = 0;
        let mut improved = true;
        while improved && pass < 10
            invariant
                self.wf(),
                n == self.n(),
                n <= 0x10000,
                self.num_edges() <= 0x10000,
                resolution <= 1_000_000,
                assign@.len() == n,
                forall|k: int| 0 <= k < n ==> ((#[trigger] assign@[k]) as int) < n,
                modularity_num(self.edges_internal(), assign@, resolution, n as int)
                    >= modularity_num(
                    self.edges_internal(),
                    singleton_assign(n as nat),
                    resolution,
                    n as int,
                ),
            decreases 10 - pass,
        {
            improved = false;
            let mut node: usize = 0;
            while node < n
                invariant
                    node <= n,
                    self.wf(),
                    n == self.n(),
                    n <= 0x10000,
                    self.num_edges() <= 0x10000,
                    resolution <= 1_000_000,
                    assign@.len() == n,
                    forall|k: int| 0 <= k < n ==> ((#[trigger] assign@[k]) as int) < n,
                    modularity_num(self.edges_internal(), assign@, resolution, n as int)
                        >= modularity_num(
                        self.edges_internal(),
                        singleton_assign(n as nat),
                        resolution,
                        n as int,
                    ),
                decreases n - node,
            {
                match self.best_move(&assign, node, resolution) {
                    Some(c) => {
                        assign.set(node, c);
                        improved = true;
                    },
                    None => {},
                }
                node = node + 1;
            }
            pass = pass + 1;
        }

        let mut groups: Vec<Vec<String>> = Vec::new();
        let mut g: usize = 0;
        while g < n
            invariant
                g <= n,
                self.wf(),
                n == self.n(),
                assign@.len() == n,
                forall|k: int| 0 <= k < n ==> ((#[trigger] assign@[k]) as int) < n,
                forall|g2: int, k: int|
                    #![trigger groups@[g2]@[k]]
                    0 <= g2 < groups@.len() && 0 <= k < groups@[g2]@.len() ==> has_view(
                        self.labels_view(),
                        groups@[g2]@[k]@,
                    ),
                forall|g2: int| 0 <= g2 < groups@.len() ==> (#[trigger] groups@[g2])@.len() > 0,
                forall|i2: int| #![trigger self.labels_view()[i2]]
                    0 <= i2 < n && (assign@[i2] as int) < g ==> group_has(
                        groups@,
                        self.labels_view()[i2]@,
                    ),
                forall|g1: int, k1: int, g2: int, k2: int|
                    #![trigger groups@[g1]@[k1], groups@[g2]@[k2]]
                    0 <= g1 < groups@.len() && 0 <= g2 < groups@.len() && 0 <= k1 < groups@[g1]@.len()
                        && 0 <= k2 < groups@[g2]@.len() && (g1 != g2 || k1 != k2) ==> groups@[g1]@[k1]@
                        != groups@[g2]@[k2]@,
                forall|g2: int, k1: int, i2: int|
                    #![trigger groups@[g2]@[k1], self.labels_view()[i2]]
                    0 <= g2 < groups@.len() && 0 <= k1 < groups@[g2]@.len() && 0 <= i2 < n && (
                    assign@[i2] as int) >= g ==> groups@[g2]@[k1]@ != self.labels_view()[i2]@,
                modularity_num(self.edges_internal(), assign@, resolution, n as int)
                    >= modularity_num(
                    self.edges_internal(),
                    singleton_assign(n as nat),
                    resolution,
                    n as int,
                ),
                forall|g2: int|
                    0 <= g2 < groups@.len() ==> #[trigger] group_matches(
                        groups@,
                        g2,
                        self.labels_view(),
                        assign@,
                        n as int,
                    ),
            decreases n - g,
        {
            let mut row: Vec<String> = Vec::new();
            let mut i: usize = 0;
            while i < n
                invariant
                    i <= n,
                    self.wf(),
                    n == self.n(),
                    assign@.len() == n,
                    g < n,
                    row@.len() == indices_with(assign@, g, i as int).len(),
                    forall|k: int|
                        0 <= k < row@.len() ==> (#[trigger] row@[k])@ == self.labels_view()[
                        indices_with(assign@, g, i as int)[k] as int]@,
                decreases n - i,
            {
                proof {
                    lemma_indices_with_elems(assign@, g, i + 1);
                }
                if assign[i] == g {
                    row.push(self.label_at(i));
                }
                i = i + 1;
            }
            if row.len() > 0 {
                let ghost old_groups = groups@;
                groups.push(row);
                proof {
                    lemma_indices_with_elems(assign@, g, n as int);
                    lemma_indices_ascending(assign@, g, n as int);
                    assert(groups@.drop_last() =~= old_groups);
                    assert forall|g2: int, k: int|
                        #![trigger groups@[g2]@[k]]
                        0 <= g2 < groups@.len() && 0 <= k < groups@[g2]@.len() implies has_view(
                        self.labels_view(),
                        groups@[g2]@[k]@,
                    ) by {
                        if g2 == groups@.len() - 1 {
                            let idx = indices_with(assign@, g, n as int)[k] as int;
                            crate::types::lemma_has_view(self.labels_view(), idx);
                        }
                    }
                    assert forall|i2: int| #![trigger self.labels_view()[i2]]
                        0 <= i2 < n && (assign@[i2] as int) < g + 1 implies group_has(
                        groups@,
                        self.labels_view()[i2]@,
                    ) by {
                        if (assign@[i2] as int) == g {
                            lemma_indices_with_contains(assign@, g, n as int, i2);
                            let k = choose|k: int|
                                0 <= k < indices_with(assign@, g, n as int).len() && (
                                #[trigger] indices_with(assign@, g, n as int)[k]) == i2;
                            assert(groups@[groups@.len() - 1]@[k]@ == self.labels_view()[i2]@);
                        } else {
                            let (gg, kk) = choose|gg: int, kk: int|
                                0 <= gg < old_groups.len() && 0 <= kk < old_groups[gg]@.len()
                                    && (#[trigger] old_groups[gg]@[kk])@ == self.labels_view()[i2]@;
                            assert(groups@[gg]@[kk]@ == self.labels_view()[i2]@);
                        }
                    }
                    assert forall|g1: int, k1: int, g2: int, k2: int|
                        #![trigger groups@[g1]@[k1], groups@[g2]@[k2]]
                        0 <= g1 < groups@.len() && 0 <= g2 < groups@.len() && 0 <= k1 < groups@[g1]@.len()
                            && 0 <= k2 < groups@[g2]@.len() && (g1 != g2 || k1 != k2) implies groups@[g1]@[k1]@
                        != groups@[g2]@[k2]@ by {
                        let last = groups@.len() - 1;
                        if g1 == last && g2 == last {
                            let i1 = indices_with(assign@, g, n as int)[k1] as int;
                            let i2 = indices_with(assign@, g, n as int)[k2] as int;
                            lemma_indices_distinct(assign@, g, n as int, k1, k2);
                            assert(self.labels_view()[i1]@ != self.labels_view()[i2]@);
                        } else if g1 == last {
                            let i1 = indices_with(assign@, g, n as int)[k1] as int;
                            assert(groups@[g2]@[k2]@ != self.labels_view()[i1]@);
                        } else if g2 == last {
                            let i2 = indices_with(assign@, g, n as int)[k2] as int;
                            assert(groups@[g1]@[k1]@ != self.labels_view()[i2]@);
                        }
                    }
                    assert forall|g2: int, k1: int, i2: int|
                        #![trigger groups@[g2]@[k1], self.labels_view()[i2]]
                        0 <= g2 < groups@.len() && 0 <= k1 < groups@[g2]@.len() && 0 <= i2 < n && (
                        assign@[i2] as int) >= g + 1 implies groups@[g2]@[k1]@
                        != self.labels_view()[i2]@ by {
                        if g2 == groups@.len() - 1 {
                            let i1 = indices_with(assign@, g, n as int)[k1] as int;
                            assert(assign@[i1] == g);
                        }
                    }
                    assert forall|g2: int| 0 <= g2 < groups@.len() implies #[trigger] group_matches(
                        groups@,
                        g2,
                        self.labels_view(),
                        assign@,
                        n as int,
                    ) by {
                        if g2 < old_groups.len() {
                            assert(groups@[g2] == old_groups[g2]);
                            assert(group_matches(old_groups, g2, self.labels_view(), assign@, n as int));
                            let c = choose|c: usize|
                                #![trigger indices_with(assign@, c, n as int)]
                                (c as int) < n && old_groups[g2]@.len() == indices_with(
                                    assign@,
                                    c,
                                    n as int,
                                ).len() && (forall|k: int|
                                    0 <= k < old_groups[g2]@.len() ==> (#[trigger] old_groups[g2]@[
                                    k])@ == self.labels_view()[indices_with(assign@, c, n as int)[
                                    k] as int]@);
                            assert((c as int) < n && groups@[g2]@.len() == indices_with(
                                assign@,
                                c,
                                n as int,
                            ).len());
                        } else {
                            assert(groups@[g2]@ == row@);
                            assert((g as int) < n && groups@[g2]@.len() == indices_with(
                                assign@,
                                g,
                                n as int,
                            ).len());
                        }
                    }
                }
            } else {
                proof {
                    assert forall|i2: int| #![trigger self.labels_view()[i2]]
                        0 <= i2 < n && (assign@[i2] as int) < g + 1 implies group_has(
                        groups@,
                        self.labels_view()[i2]@,
                    ) by {
                        if (assign@[i2] as int) == g {
                            lemma_indices_with_contains(assign@, g, n as int, i2);
                            assert(indices_with(assign@, g, n as int).len() == row@.len()) by {
                                lemma_indices_with_len(assign@, g, n as int);
                                assert(assign@.take(n as int) =~= assign@);
                                lemma_indices_with_len(assign@, g, n as int);
                            }
                            assert(false);
                        }
                    }
                }
            }
            g = g + 1;
        }
        proof {
            assert(assign@.len() == self.n());
            assert(forall|i: int|
                0 <= i < assign@.len() ==> ((#[trigger] assign@[i]) as int) < self.n());
            assert(modularity_num(self.edges_internal(), assign@, resolution, self.n() as int)
                >= modularity_num(
                self.edges_internal(),
                singleton_assign(self.n()),
                resolution,
                self.n() as int,
            ));
            assert forall|g2: int| 0 <= g2 < groups@.len() implies #[trigger] group_matches(
                groups@,
                g2,
                self.labels_view(),
                assign@,
                self.n() as int,
            ) by {
                assert(group_matches(groups@, g2, self.labels_view(), assign@, n as int));
            }
        }
        groups
    }

    /// PageRank in fixed-point units of `1e-12`: one rank per node label,
    /// in label order, equal to `pr_iterate`: from the uniform start, every
    /// round assigns each node the base term `(1 - d)/n` and distributes
    /// each node's damped rank `d r/deg` over its neighbors; additions
    /// saturate at the integer limit, which real runs never reach since the
    /// total mass never exceeds one.
    pub fn compute_pagerank(&self, damping: u64, iterations: usize) -> (r: Vec<(String, u64)>)
        requires
            self.wf(),
            damping <= 1_000_000,
        ensures
            r@.len() == self.n(),
            forall|i: int| 0 <= i < r@.len() ==> (#[trigger] r@[i]).0@ == self.labels_view()[i]@,
            forall|i: int|
                0 <= i < r@.len() ==> (#[trigger] r@[i]).1 == pr_iterate(
                    self.edges_internal(),
                    damping,
                    self.n(),
                    iterations as int,
                )[i],
    {
        let n = self.labels.len();
        if n == 0 {
            return Vec::new();
        }
        let ghost edges = self.edges_internal();
        let mut ranks: Vec<u64> = Vec::new();
        let mut i: usize = 0;
        let init = 1_000_000_000_000u64 / (n as u64);
        while i < n
            invariant
                i <= n,
                init == 1_000_000_000_000int / (n as int),
                n >= 1,
                ranks@.len() == i,
                forall|k: int| 0 <= k < i ==> (#[trigger] ranks@[k]) == init,
            decreases n - i,
        {
            ranks.push(init);
            i = i + 1;
        }
        proof {
            assert(ranks@ =~= pr_iterate(edges, damping, n as nat, 0));
        }
        let mut round: usize = 0;
        while round < iterations
            invariant
                round <= iterations,
                self.wf(),
                edges == self.edges_internal(),
                n == self.n(),
                n >= 1,
                damping <= 1_000_000,
                ranks@.len() == n,
                ranks@ == pr_iterate(edges, damping, n as nat, round as int),
            decreases iterations - round,
        {
            proof {
                assert(((1_000_000 - damping) as int) * 1_000_000_000_000
                    <= 1_000_000int * 1_000_000_000_000) by (nonlinear_arith)
                    requires damping <= 1_000_000;
                vstd::arithmetic::div_mod::lemma_div_is_ordered(
                    ((1_000_000 - damping) as int) * 1_000_000_000_000,
                    1_000_000int * 1_000_000_000_000,
                    1_000_000,
                );
                vstd::arithmetic::div_mod::lemma_div_multiples_vanish(
                    1_000_000_000_000,
                    1_000_000,
                );
                vstd::arithmetic::div_mod::lemma_div_is_ordered(
                    ((1_000_000 - damping) as int) * 1_000_000_000_000 / 1_000_000,
                    1_000_000_000_000,
                    n as int,
                );
                vstd::arithmetic::div_mod::lemma_div_pos_is_pos(1_000_000_000_000, n as int);
            }
            let base = (((1_000_000 - damping) as u128) * 1_000_000_000_000u128 / 1_000_000u128
                / (n as u128)) as u64;
            proof {
                assert(base as int == pr_base(damping, n as int));
            }
            let ghost base_seq = Seq::new(n as nat, |i: int| pr_base(damping, n as int) as u64);
            let mut next: Vec<u64> = Vec::new();
            let mut i: usize = 0;
            while i < n
                invariant
                    i <= n,
                    next@.len() == i,
                    base as int == pr_base(damping, n as int),
                    forall|k: int| 0 <= k < i ==> (#[trigger] next@[k]) == base,
                decreases n - i,
            {
                next.push(base);
                i = i + 1;
            }
            proof {
                assert(next@ =~= base_seq);
            }
            let mut u: usize = 0;
            while u < n
                invariant
                    u <= n,
                    self.wf(),
                    edges == self.edges_internal(),
                    n == self.n(),
                    damping <= 1_000_000,
                    ranks@.len() == n,
                    next@.len() == n,
                    next@ == pr_scatter_all(edges, damping, ranks@, base_seq, u as int),
                decreases n - u,
            {
                let nbrs = self.neighbors(u);
                let deg = nbrs.len();
                if deg > 0 {
                    proof {
                        assert((damping as int) * (ranks@[u as int] as int) <= 1_000_000 * (
                        0xffff_ffff_ffff_ffffint)) by (nonlinear_arith)
                            requires
                                damping <= 1_000_000,
                                ranks@[u as int] <= 0xffff_ffff_ffff_ffff,
                        ;
                        vstd::arithmetic::div_mod::lemma_div_is_ordered(
                            (damping as int) * (ranks@[u as int] as int),
                            1_000_000 * (0xffff_ffff_ffff_ffffint),
                            1_000_000,
                        );
                        vstd::arithmetic::div_mod::lemma_div_multiples_vanish(
                            0xffff_ffff_ffff_ffff,
                            1_000_000,
                        );
                        vstd::arithmetic::div_mod::lemma_div_is_ordered(
                            (damping as int) * (ranks@[u as int] as int) / 1_000_000,
                            0xffff_ffff_ffff_ffff,
                            deg as int,
                        );
                        vstd::arithmetic::div_mod::lemma_div_pos_is_pos(
                            0xffff_ffff_ffff_ffff,
                            deg as int,
                        );
                    }
                    let wide: u128 = (damping as u128) * (ranks[u] as u128) / 1_000_000u128 / (
                    deg as u128);
                    let share = wide as u64;
                    proof {
                        assert(share as int == pr_share(damping, ranks@[u as int], deg as int));
                    }
                    let ghost before_node = next@;
                    let mut k: usize = 0;
                    while k < nbrs.len()
                        invariant
                            k <= nbrs@.len(),
                            u < n,
                            next@.len() == n,
                            nbrs@ == incident(edges, u),
                            deg == nbrs@.len(),
                            share as int == pr_share(damping, ranks@[u as int], deg as int),
                            forall|kk: int|
                                0 <= kk < nbrs@.len() ==> ((#[trigger] nbrs@[kk]).0 as int) < n,
                            next@ == pr_scatter_node(
                                share as int,
                                nbrs@,
                                before_node,
                                k as int,
                            ),
                        decreases nbrs@.len() - k,
                    {
                        let nb = nbrs[k].0;
                        let cur = next[nb];
                        let nv = if cur <= u64::MAX - share {
                            cur + share
                        } else {
                            u64::MAX
                        };
                        next.set(nb, nv);
                        k = k + 1;
                    }
                }
                u = u + 1;
            }
            ranks = next;
            round = round + 1;
        }
        let mut r: Vec<(String, u64)> = Vec::new();
        let mut i: usize = 0;
        while i < n
            invariant
                i <= n,
                self.wf(),
                edges == self.edges_internal(),
                n == self.n(),
                damping <= 1_000_000,
                ranks@.len() == n,
                ranks@ == pr_iterate(edges, damping, n as nat, iterations as int),
                r@.len() == i,
                forall|k: int| 0 <= k < i ==> (#[trigger] r@[k]).0@ == self.labels_view()[k]@,
                forall|k: int|
                    0 <= k < i ==> (#[trigger] r@[k]).1 == pr_iterate(
                        edges,
                        damping,
                        n as nat,
                        iterations as int,
                    )[k],
            decreases n - i,
        {
            r.push((self.label_at(i), ranks[i]));
            i = i + 1;
        }
        r
    }
}

/// The JSON string literal (quotes and escapes included) that serde_json
/// produces for a string.
pub uninterp spec fn json_string_lit(s: Seq<char>) -> Seq<char>;

/// Relies on serde_json's `to_string` for `&str`: it yields the quoted,
/// escaped JSON string literal, a function of the characters alone, and it
/// cannot fail for a string value.
#[verifier::external_body]
fn json_quote(s: &str) -> (r: String)
    ensures
        r@ == json_string_lit(s@),
{
    serde_json::to_string(s).unwrap_or_default()
}

/// The decimal digits of `n`.
pub open spec fn dec_digits(n: nat) -> Seq<char>
    decreases n,
{
    if n < 10 {
        seq![((48 + n) as u8) as char]
    } else {
        dec_digits(n / 10).push(((48 + n % 10) as u8) as char)
    }
}

/// Relies on std's `format!` for `u64`: it renders the decimal digits.
#[verifier::external_body]
fn fmt_u64(n: u64) -> (r: String)
    ensures
        r@ == dec_digits(n as nat),
{
    format!("{}", n)
}

/// The JSON fragment for the node list.
pub open spec fn nodes_json(labels: Seq<Seq<char>>, upto: int) -> Seq<char>
    decreases upto,
{
    if upto <= 0 {
        Seq::empty()
    } else {
        let prefix = nodes_json(labels, upto - 1);
        let item = "{\"id\":"@ + json_string_lit(labels[upto - 1]) + "}"@;
        if upto == 1 {
            prefix + item
        } else {
            prefix + ","@ + item
        }
    }
}

/// The JSON fragment for the edge list; weights are reported in fixed-point
/// units.
pub open spec fn edges_json(labels: Seq<Seq<char>>, edges: Seq<(usize, usize, u64)>, upto: int) -> Seq<char>
    decreases upto,
{
    if upto <= 0 {
        Seq::empty()
    } else {
        let prefix = edges_json(labels, edges, upto - 1);
        let e = edges[upto - 1];
        let item = "{\"source\":"@ + json_string_lit(labels[e.0 as int]) + ",\"target\":"@
            + json_string_lit(labels[e.1 as int]) + ",\"weight\":"@ + dec_digits(e.2 as nat)
            + "}"@;
        if upto == 1 {
            prefix + item
        } else {
            prefix + ","@ + item
        }
    }
}

/// The whole JSON document for a graph.
pub open spec fn graph_json(labels: Seq<Seq<char>>, edges: Seq<(usize, usize, u64)>) -> Seq<char> {
    "{\"nodes\":["@ + nodes_json(labels, labels.len() as int) + "],\"edges\":["@ + edges_json(
        labels,
        edges,
        edges.len() as int,
    ) + "]}"@
}


/// Saturating addition of a distance and a weight.
pub open spec fn sat_add(a: u64, w: u64) -> u64 {
    if a + w <= u64::MAX {
        (a + w) as u64
    } else {
        u64::MAX
    }
}

/// One relaxation step: the candidate distance through an edge replaces
/// the target's distance when strictly smaller.
pub open spec fn relax_to(dist: Seq<Option<u64>>, from: int, to: int, w: u64) -> Seq<Option<u64>> {
    if 0 <= from < dist.len() && 0 <= to < dist.len() {
        match dist[from] {
            Option::Some(da) => {
                let cand = sat_add(da, w);
                let better = match dist[to] {
                    Option::Some(db) => cand < db,
                    Option::None => true,
                };
                if better {
                    dist.update(to, Option::Some(cand))
                } else {
                    dist
                }
            },
            Option::None => dist,
        }
    } else {
        dist
    }
}

/// Relax the edges before `upto`, in order, both directions each.
pub open spec fn relax_edges(
    dist: Seq<Option<u64>>,
    edges: Seq<(usize, usize, u64)>,
    upto: int,
) -> Seq<Option<u64>>
    decreases upto,
{
    if upto <= 0 || upto > edges.len() {
        dist
    } else {
        let prev = relax_edges(dist, edges, upto - 1);
        let e = edges[upto - 1];
        relax_to(relax_to(prev, e.0 as int, e.1 as int, e.2), e.1 as int, e.0 as int, e.2)
    }
}

/// The distances after the given number of full relaxation rounds.
pub open spec fn relax_rounds(
    dist: Seq<Option<u64>>,
    edges: Seq<(usize, usize, u64)>,
    rounds: int,
) -> Seq<Option<u64>>
    decreases rounds,
{
    if rounds <= 0 {
        dist
    } else {
        relax_edges(relax_rounds(dist, edges, rounds - 1), edges, edges.len() as int)
    }
}

/// Source at distance zero, everything else unreached.
pub open spec fn initial_dist(n: nat, src: int) -> Seq<Option<u64>> {
    Seq::new(
        n,
        |i: int|
            if i == src {
                Option::Some(0u64)
            } else {
                Option::<u64>::None
            },
    )
}

/// The labelled entries of a distance table, unreached nodes skipped.
pub open spec fn reached_entries(labels: Seq<String>, dist: Seq<Option<u64>>, upto: int) -> Seq<(
    Seq<char>,
    u64,
)>
    decreases upto,
{
    if upto <= 0 || upto > dist.len() {
        Seq::empty()
    } else {
        let prefix = reached_entries(labels, dist, upto - 1);
        match dist[upto - 1] {
            Option::Some(d) => prefix.push((labels[upto - 1]@, d)),
            Option::None => prefix,
        }
    }
}

/// Relaxation never disturbs a distance of zero.
proof fn lemma_relax_to_keeps_zero(dist: Seq<Option<u64>>, from: int, to: int, w: u64, src: int)
    requires
        0 <= src < dist.len(),
        dist[src] == Option::Some(0u64),
    ensures
        relax_to(dist, from, to, w)[src] == Option::Some(0u64),
        relax_to(dist, from, to, w).len() == dist.len(),
{
}

proof fn lemma_relax_edges_keeps_zero(
    dist: Seq<Option<u64>>,
    edges: Seq<(usize, usize, u64)>,
    upto: int,
    src: int,
)
    requires
        0 <= src < dist.len(),
        dist[src] == Option::Some(0u64),
    ensures
        relax_edges(dist, edges, upto)[src] == Option::Some(0u64),
        relax_edges(dist, edges, upto).len() == dist.len(),
    decreases upto,
{
    if !(upto <= 0 || upto > edges.len()) {
        lemma_relax_edges_keeps_zero(dist, edges, upto - 1, src);
        let prev = relax_edges(dist, edges, upto - 1);
        let e = edges[upto - 1];
        lemma_relax_to_keeps_zero(prev, e.0 as int, e.1 as int, e.2, src);
        lemma_relax_to_keeps_zero(
            relax_to(prev, e.0 as int, e.1 as int, e.2),
            e.1 as int,
            e.0 as int,
            e.2,
            src,
        );
    }
}

/// After any number of rounds the source still reads zero.
pub proof fn lemma_relax_rounds_keeps_zero(
    dist: Seq<Option<u64>>,
    edges: Seq<(usize, usize, u64)>,
    rounds: int,
    src: int,
)
    requires
        0 <= src < dist.len(),
        dist[src] == Option::Some(0u64),
    ensures
        relax_rounds(dist, edges, rounds)[src] == Option::Some(0u64),
        relax_rounds(dist, edges, rounds).len() == dist.len(),
    decreases rounds,
{
    if rounds > 0 {
        lemma_relax_rounds_keeps_zero(dist, edges, rounds - 1, src);
        lemma_relax_edges_keeps_zero(
            relax_rounds(dist, edges, rounds - 1),
            edges,
            edges.len() as int,
            src,
        );
    }
}

impl CognateGraph {
    /// Export the graph as `{"nodes": [{"id": ...}], "edges": [{"source",
    /// "target", "weight"}]}`, nodes and edges in insertion order, weights
    /// in fixed-point units.
    pub fn to_json(&self) -> (r: String)
        requires
            self.wf(),
        ensures
            r@ == graph_json(
                string_views(self.labels_view()),
                self.edges_internal(),
            ),
    {
        let ghost lv = string_views(self.labels@);
        let mut out = String::new();
        out.append("{\"nodes\":[");
        let mut i: usize = 0;
        while i < self.labels.len()
            invariant
                i <= self.labels@.len(),
                self.wf(),
                lv == string_views(self.labels@),
                out@ == "{\"nodes\":["@ + nodes_json(lv, i as int),
            decreases self.labels@.len() - i,
        {
            if i > 0 {
                out.append(",");
            }
            out.append("{\"id\":");
            let q = json_quote(self.labels[i].as_str());
            out.append(q.as_str());
            out.append("}");
            proof {
                assert(lv[i as int] == self.labels@[i as int]@);
                assert(out@ =~= "{\"nodes\":["@ + nodes_json(lv, i + 1));
            }
            i = i + 1;
        }
        out.append("],\"edges\":[");
        let ghost mid = out@;
        proof {
            assert(mid =~= "{\"nodes\":["@ + nodes_json(lv, self.labels@.len() as int)
                + "],\"edges\":["@);
        }
        let mut t: usize = 0;
        while t < self.edge_list.len()
            invariant
                t <= self.edge_list@.len(),
                self.wf(),
                lv == string_views(self.labels@),
                lv.len() == self.labels@.len(),
                out@ == mid + edges_json(lv, self.edges_internal(), t as int),
                mid == "{\"nodes\":["@ + nodes_json(lv, self.labels@.len() as int)
                    + "],\"edges\":["@,
            decreases self.edge_list@.len() - t,
        {
            if t > 0 {
                out.append(",");
            }
            let e = self.edge_list[t];
            out.append("{\"source\":");
            let qs = json_quote(self.labels[e.0].as_str());
            out.append(qs.as_str());
            out.append(",\"target\":");
            let qt = json_quote(self.labels[e.1].as_str());
            out.append(qt.as_str());
            out.append(",\"weight\":");
            let w = fmt_u64(e.2);
            out.append(w.as_str());
            out.append("}");
            proof {
                assert(lv[e.0 as int] == self.labels@[e.0 as int]@);
                assert(lv[e.1 as int] == self.labels@[e.1 as int]@);
                assert(out@ =~= mid + edges_json(lv, self.edges_internal(), t + 1));
            }
            t = t + 1;
        }
        out.append("]}");
        proof {
            assert(out@ =~= graph_json(string_views(self.labels_view()), self.edges_internal()));
        }
        out
    }

    /// Distances from a named source, in weight units: `None` for an
    /// unknown source; otherwise the labelled entries of the distance table
    /// after one full relaxation round per node over the initial table that
    /// holds the source at zero. With non-negative weights that many rounds
    /// reach the least path-cost of every reachable node, and unreachable
    /// nodes stay absent.
    pub fn shortest_paths(&self, source_id: &str) -> (r: Option<Vec<(String, u64)>>)
        requires
            self.wf(),
        ensures
            match r {
                Option::Some(v) => {
                    let idx = label_index(string_views(self.labels_view()), source_id@);
                    let d = relax_rounds(
                        initial_dist(self.n(), idx),
                        self.edges_internal(),
                        self.n() as int,
                    );
                    &&& idx >= 0
                    &&& d[idx] == Option::Some(0u64)
                    &&& v@.len() == reached_entries(self.labels_view(), d, self.n() as int).len()
                    &&& forall|t: int| #![trigger v@[t]]
                        0 <= t < v@.len() ==> v@[t].0@ == reached_entries(
                            self.labels_view(),
                            d,
                            self.n() as int,
                        )[t].0 && v@[t].1 == reached_entries(
                            self.labels_view(),
                            d,
                            self.n() as int,
                        )[t].1
                },
                Option::None => label_index(string_views(self.labels_view()), source_id@) < 0,
            },
    {
        let n = self.labels.len();
        let mut src: usize = 0;
        let mut found = false;
        let ghost lv = string_views(self.labels@);
        proof {
            assert(lv.skip(0) =~= lv);
        }
        while src < n
            invariant_except_break
                !found,
            invariant
                src <= n,
                lv == string_views(self.labels@),
                n == self.n(),
                label_index(lv, source_id@) == if label_index(lv.skip(src as int), source_id@)
                    < 0 {
                    -1int
                } else {
                    label_index(lv.skip(src as int), source_id@) + src
                },
            ensures
                found ==> src < n && label_index(lv, source_id@) == src,
                !found ==> label_index(lv, source_id@) < 0,
            decreases n - src,
        {
            proof {
                assert(lv.skip(src as int)[0] == self.labels@[src as int]@);
                assert(lv.skip(src as int).drop_first() =~= lv.skip(src + 1));
            }
            if str_eq(self.labels[src].as_str(), source_id) {
                found = true;
                proof {
                    assert(label_index(lv.skip(src as int), source_id@) == 0);
                }
                break;
            }
            src = src + 1;
        }
        proof {
            if !found {
                assert(lv.skip(n as int).len() == 0);
            }
        }
        if !found {
            return None;
        }
        let ghost init = initial_dist(self.n(), src as int);
        let mut dist: Vec<Option<u64>> = Vec::new();
        let mut i: usize = 0;
        while i < n
            invariant
                i <= n,
                dist@.len() == i,
                forall|k: int| 0 <= k < i ==> (#[trigger] dist@[k]) is None,
            decreases n - i,
        {
            dist.push(None);
            i = i + 1;
        }
        dist.set(src, Some(0));
        proof {
            assert(dist@ =~= init);
        }
        let mut round: usize = 0;
        while round < n
            invariant
                round <= n,
                self.wf(),
                n == self.n(),
                src < n,
                dist@.len() == n,
                dist@ == relax_rounds(init, self.edges_internal(), round as int),
            decreases n - round,
        {
            let ghost base = dist@;
            let mut t: usize = 0;
            while t < self.edge_list.len()
                invariant
                    t <= self.edge_list@.len(),
                    self.wf(),
                    n == self.n(),
                    dist@.len() == n,
                    dist@ == relax_edges(base, self.edges_internal(), t as int),
                decreases self.edge_list@.len() - t,
            {
                let ghost prev = dist@;
                let (a, b, w) = self.edge_list[t];
                match dist[a] {
                    Some(da) => {
                        let cand = if da <= u64::MAX - w {
                            da + w
                        } else {
                            u64::MAX
                        };
                        let better = match dist[b] {
                            Some(db) => cand < db,
                            None => true,
                        };
                        if better {
                            dist.set(b, Some(cand));
                        }
                    },
                    None => {},
                }
                proof {
                    assert(dist@ =~= relax_to(prev, a as int, b as int, w));
                }
                let ghost mid = dist@;
                match dist[b] {
                    Some(db) => {
                        let cand = if db <= u64::MAX - w {
                            db + w
                        } else {
                            u64::MAX
                        };
                        let better = match dist[a] {
                            Some(da) => cand < da,
                            None => true,
                        };
                        if better {
                            dist.set(a, Some(cand));
                        }
                    },
                    None => {},
                }
                proof {
                    assert(dist@ =~= relax_to(mid, b as int, a as int, w));
                    assert(self.edges_internal()[t as int] == (a, b, w));
                }
                t = t + 1;
            }
            proof {
                assert(self.edge_list@.take(self.edge_list@.len() as int) =~= self.edge_list@);
            }
            round = round + 1;
        }
        let ghost dfinal = relax_rounds(init, self.edges_internal(), n as int);
        proof {
            lemma_relax_rounds_keeps_zero(init, self.edges_internal(), n as int, src as int);
        }
        let mut r: Vec<(String, u64)> = Vec::new();
        let mut i: usize = 0;
        while i < n
            invariant
                i <= n,
                self.wf(),
                n == self.n(),
                dist@.len() == n,
                dist@ == dfinal,
                r@.len() == reached_entries(self.labels_view(), dfinal, i as int).len(),
                forall|t: int| #![trigger r@[t]]
                    0 <= t < r@.len() ==> r@[t].0@ == reached_entries(
                        self.labels_view(),
                        dfinal,
                        i as int,
                    )[t].0 && r@[t].1 == reached_entries(self.labels_view(), dfinal, i as int)[t].1,
            decreases n - i,
        {
            match dist[i] {
                Some(d) => {
                    let lab = self.label_at(i);
                    r.push((lab, d));
                },
                None => {},
            }
            i = i + 1;
        }
        Some(r)
    }
}

impl Default for CognateGraph {
    /// A fresh empty graph.
    fn default() -> (g: CognateGraph)
        ensures
            g.wf(),
            g.n() == 0,
            g.num_edges() == 0,
    {
        CognateGraph::new()
    }
}

/// Insert one rank entry into a rank-descending list, keeping it sorted.
fn insert_by_rank(out: &mut Vec<(String, u64)>, e: (String, u64))
    requires
        forall|t1: int, t2: int|
            0 <= t1 < t2 < old(out)@.len() ==> (#[trigger] old(out)@[t1]).1 >= (
            #[trigger] old(out)@[t2]).1,
    ensures
        final(out)@.len() == old(out)@.len() + 1,
        forall|t1: int, t2: int|
            0 <= t1 < t2 < final(out)@.len() ==> (#[trigger] final(out)@[t1]).1 >= (
            #[trigger] final(out)@[t2]).1,
        forall|t: int| #![trigger final(out)@[t]]
            0 <= t < final(out)@.len() ==> final(out)@[t] == e || exists|t2: int|
                0 <= t2 < old(out)@.len() && final(out)@[t] == (#[trigger] old(out)@[t2]),
        forall|t2: int| #![trigger old(out)@[t2]]
            0 <= t2 < old(out)@.len() ==> exists|t: int|
                0 <= t < final(out)@.len() && old(out)@[t2] == (#[trigger] final(out)@[t]),
        exists|t: int| 0 <= t < final(out)@.len() && (#[trigger] final(out)@[t]) == e,
{
    let mut pos: usize = 0;
    while pos < out.len()
        invariant
            pos <= out@.len(),
            out@ == old(out)@,
            forall|t: int| 0 <= t < pos ==> (#[trigger] out@[t]).1 >= e.1,
        ensures
            pos <= out@.len(),
            out@ == old(out)@,
            forall|t: int| 0 <= t < pos ==> (#[trigger] out@[t]).1 >= e.1,
            pos < out@.len() ==> out@[pos as int].1 < e.1,
        decreases out@.len() - pos,
    {
        if out[pos].1 < e.1 {
            break;
        }
        pos = pos + 1;
    }
    let ghost before = out@;
    let ghost p = pos as int;
    out.insert(pos, e);
    proof {
        assert(forall|t: int| 0 <= t < p ==> out@[t] == before[t]);
        assert(out@[p] == e);
        assert(forall|t: int| p < t < out@.len() ==> out@[t] == before[t - 1]);
        assert forall|t1: int, t2: int| 0 <= t1 < t2 < out@.len() implies (#[trigger] out@[t1]).1
            >= (#[trigger] out@[t2]).1 by {
            if t1 == p && t2 > p {
                assert(out@[t2] == before[t2 - 1]);
                if t2 - 1 > p {
                    assert(before[p].1 >= before[t2 - 1].1);
                }
            }
        }
        assert forall|t: int| #![trigger out@[t]] 0 <= t < out@.len() implies out@[t] == e
            || exists|t2: int| 0 <= t2 < before.len() && out@[t] == (#[trigger] before[t2]) by {
            if t != p {
                let to: int = if t < p {
                    t
                } else {
                    t - 1
                };
                assert(out@[t] == before[to]);
            }
        }
        assert forall|t2: int| #![trigger before[t2]] 0 <= t2 < before.len() implies exists|t: int|
            0 <= t < out@.len() && before[t2] == (#[trigger] out@[t]) by {
            let t: int = if t2 < p {
                t2
            } else {
                t2 + 1
            };
            assert(before[t2] == out@[t]);
        }
    }
}

/// One of the first `n` entries of `s` is `e`.
pub open spec fn rank_listed(s: Seq<(String, u64)>, n: int, e: (String, u64)) -> bool {
    exists|t: int| 0 <= t < n && t < s.len() && (#[trigger] s[t]) == e
}

/// The rank entries sorted by descending rank: the result holds exactly
/// the entries of the input, highest rank first.
pub fn sort_ranks_desc(ranks: Vec<(String, u64)>) -> (r: Vec<(String, u64)>)
    ensures
        r@.len() == ranks@.len(),
        forall|t1: int, t2: int|
            0 <= t1 < t2 < r@.len() ==> (#[trigger] r@[t1]).1 >= (#[trigger] r@[t2]).1,
        forall|t: int| #![trigger r@[t]]
            0 <= t < r@.len() ==> rank_listed(ranks@, ranks@.len() as int, r@[t]),
        forall|t2: int| #![trigger ranks@[t2]]
            0 <= t2 < ranks@.len() ==> rank_listed(r@, r@.len() as int, ranks@[t2]),
{
    let mut out: Vec<(String, u64)> = Vec::new();
    let mut j: usize = 0;
    while j < ranks.len()
        invariant
            j <= ranks@.len(),
            out@.len() == j,
            forall|t1: int, t2: int|
                0 <= t1 < t2 < out@.len() ==> (#[trigger] out@[t1]).1 >= (#[trigger] out@[t2]).1,
            forall|t: int| #![trigger out@[t]]
                0 <= t < out@.len() ==> rank_listed(ranks@, j as int, out@[t]),
            forall|t2: int| #![trigger ranks@[t2]]
                0 <= t2 < j ==> rank_listed(out@, out@.len() as int, ranks@[t2]),
        decreases ranks@.len() - j,
    {
        let e = (ranks[j].0.clone(), ranks[j].1);
        let ghost before = out@;
        insert_by_rank(&mut out, e);
        proof {
            assert(e == ranks@[j as int]);
            assert forall|t: int| #![trigger out@[t]] 0 <= t < out@.len() implies rank_listed(
                ranks@,
                j + 1,
                out@[t],
            ) by {
                if out@[t] == e {
                    assert(ranks@[j as int] == out@[t]);
                } else {
                    let tb = choose|tb: int|
                        0 <= tb < before.len() && out@[t] == (#[trigger] before[tb]);
                    let t2 = choose|t2: int|
                        0 <= t2 < j && t2 < ranks@.len() && (#[trigger] ranks@[t2]) == before[tb];
                    assert(ranks@[t2] == out@[t]);
                }
            }
            assert forall|t2: int| #![trigger ranks@[t2]] 0 <= t2 < j + 1 implies rank_listed(
                out@,
                out@.len() as int,
                ranks@[t2],
            ) by {
                if t2 == j {
                    let t = choose|t: int| 0 <= t < out@.len() && (#[trigger] out@[t]) == e;
                    assert(out@[t] == ranks@[t2]);
                } else {
                    let tb = choose|tb: int|
                        0 <= tb < before.len() && tb < before.len() && (#[trigger] before[tb])
                            == ranks@[t2];
                    let t = choose|t: int|
                        0 <= t < out@.len() && before[tb] == (#[trigger] out@[t]);
                    assert(out@[t] == ranks@[t2]);
                }
            }
        }
        j = j + 1;
    }
    out
}

} // verus!
