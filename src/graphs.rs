use vstd::prelude::*;

verus! {

/// The abstract content of one edge: where it starts, where it ends, what it weighs.
pub struct Link {
    pub src: usize,
    pub dst: usize,
    pub weight: i32,
}

/// Operations that every edge representation stored in a [`Graph`] provides.
pub trait Edge: Sized {
    /// What the edge stands for.
    spec fn link(&self) -> Link;

    /// What else the edge carries besides its link (empty for a plain edge).
    spec fn tag(&self) -> Seq<char>;

    fn new(src: usize, dst: usize, weight: i32) -> (r: Self)
        ensures
            r.link() == (Link { src, dst, weight }),
    ;

    fn source(&self) -> (r: usize)
        ensures
            r == self.link().src,
    ;

    fn set_source(&mut self, source: usize)
        ensures
            final(self).link() == (Link { src: source, ..old(self).link() }),
            final(self).tag() == old(self).tag(),
    ;

    fn destination(&self) -> (r: usize)
        ensures
            r == self.link().dst,
    ;

    fn set_destination(&mut self, destination: usize)
        ensures
            final(self).link() == (Link { dst: destination, ..old(self).link() }),
            final(self).tag() == old(self).tag(),
    ;

    fn weight(&self) -> (r: i32)
        ensures
            r == self.link().weight,
    ;

    /// An independent copy of the edge, extra payload included.
    fn duplicate(&self) -> (r: Self)
        ensures
            r.link() == self.link(),
            r.tag() == self.tag(),
    ;
}

/// The plain edge: endpoints and a weight.
#[derive(Clone, Copy, Debug)]
pub struct NormalEdge {
    src: usize,
    dst: usize,
    weight: i32,
}

impl Edge for NormalEdge {
    closed spec fn link(&self) -> Link {
        Link { src: self.src, dst: self.dst, weight: self.weight }
    }

    closed spec fn tag(&self) -> Seq<char> {
        Seq::empty()
    }

    fn new(src: usize, dst: usize, weight: i32) -> (r: Self) {
        NormalEdge { src, dst, weight }
    }

    fn source(&self) -> (r: usize) {
        self.src
    }

    fn set_source(&mut self, source: usize) {
        self.src = source;
    }

    fn destination(&self) -> (r: usize) {
        self.dst
    }

    fn set_destination(&mut self, destination: usize) {
        self.dst = destination;
    }

    fn weight(&self) -> (r: i32) {
        self.weight
    }

    fn duplicate(&self) -> (r: Self) {
        NormalEdge { src: self.src, dst: self.dst, weight: self.weight }
    }
}

#[derive(PartialEq, Eq, Structural, Clone, Copy, Debug)]
pub enum GraphType {
    GraphUndirected,
    GraphDirected,
}

/// The error of an algorithm that cannot handle negative edge weights.
#[derive(PartialEq, Eq, Structural, Clone, Copy, Debug)]
pub struct NegativeEdgeError;

/// Why an edge could not be inserted.
#[derive(PartialEq, Eq, Structural, Clone, Copy, Debug)]
pub enum GraphError {
    /// An endpoint is not a node of the graph.
    NodeOutOfBounds,
    /// A graph description announced another number of edges than it listed.
    EdgeCountMismatch,
}

/// The largest number of nodes a graph may have: it keeps every sum of
/// path weights within `i64` and every heap index within `usize`.
pub const MAX_NODES: usize = 0x3fff_fff0;

/// A graph over the nodes `0..n_nodes`, stored as one adjacency list per node.
pub struct Graph<T: Edge> {
    n_nodes: usize,
    n_edges: usize,
    g_type: GraphType,
    edges: Vec<Vec<T>>,
    in_deg: Vec<usize>,
    out_deg: Vec<usize>,
}

/// How many links of `s` end at `v`.
pub open spec fn count_into(s: Seq<Link>, v: int) -> nat
    decreases s.len(),
{
    if s.len() == 0 {
        0
    } else {
        count_into(s.drop_last(), v) + if s.last().dst == v { 1nat } else { 0nat }
    }
}

/// How many links of the first `m` adjacency lists end at `v`.
pub open spec fn in_count(adj: Seq<Seq<Link>>, v: int, m: int) -> nat
    decreases m,
{
    if m <= 0 {
        0
    } else {
        in_count(adj, v, m - 1) + count_into(adj[m - 1], v)
    }
}

proof fn lemma_in_count_push(adj: Seq<Seq<Link>>, u: int, l: Link, v: int, m: int)
    requires
        0 <= u < adj.len(),
        m <= adj.len(),
    ensures
        in_count(adj.update(u, adj[u].push(l)), v, m) == in_count(adj, v, m) + if u < m && l.dst
            == v {
            1nat
        } else {
            0nat
        },
    decreases m,
{
    if m > 0 {
        lemma_in_count_push(adj, u, l, v, m - 1);
        assert(adj[u].push(l).drop_last() =~= adj[u]);
    }
}

/// A step of a walk names a stored edge: its node and its place in that node's list.
pub open spec fn valid_step(adj: Seq<Seq<Link>>, st: (int, int)) -> bool {
    0 <= st.0 < adj.len() && 0 <= st.1 < adj[st.0].len()
}

pub open spec fn step_link(adj: Seq<Seq<Link>>, st: (int, int)) -> Link {
    adj[st.0][st.1]
}

/// `p` is a walk from `s` to `v`: a chain of stored edges, each starting where
/// the one before ends (the empty walk goes from a node to itself).
pub open spec fn is_walk(adj: Seq<Seq<Link>>, s: int, v: int, p: Seq<(int, int)>) -> bool {
    &&& forall|i: int| 0 <= i < p.len() ==> valid_step(adj, #[trigger] p[i])
    &&& forall|i: int| 0 <= i < p.len() ==> (#[trigger] step_link(adj, p[i])).src == p[i].0
    &&& forall|i: int| 0 <= i < p.len() - 1 ==> step_link(adj, #[trigger] p[i]).dst == p[i + 1].0
    &&& p.len() == 0 ==> s == v
    &&& p.len() > 0 ==> p[0].0 == s && step_link(adj, p.last()).dst == v
}

/// The sum of the weights along `p`.
pub open spec fn walk_weight(adj: Seq<Seq<Link>>, p: Seq<(int, int)>) -> int
    decreases p.len(),
{
    if p.len() == 0 {
        0
    } else {
        walk_weight(adj, p.drop_last()) + step_link(adj, p.last()).weight
    }
}

/// Some walk leads from `s` to `v`.
pub open spec fn reachable(adj: Seq<Seq<Link>>, s: int, v: int) -> bool {
    exists|p: Seq<(int, int)>| #[trigger] is_walk(adj, s, v, p)
}

/// `d` is the least number of edges on a walk from `s` to `v`.
pub open spec fn is_fewest_hops(adj: Seq<Seq<Link>>, s: int, v: int, d: int) -> bool {
    &&& exists|p: Seq<(int, int)>| #[trigger] is_walk(adj, s, v, p) && p.len() == d
    &&& forall|p: Seq<(int, int)>| #[trigger] is_walk(adj, s, v, p) ==> d <= p.len()
}

/// `d` is the least weight of a walk from `s` to `v`.
pub open spec fn is_shortest(adj: Seq<Seq<Link>>, s: int, v: int, d: int) -> bool {
    &&& exists|p: Seq<(int, int)>| #[trigger] is_walk(adj, s, v, p) && walk_weight(adj, p) == d
    &&& forall|p: Seq<(int, int)>| #[trigger] is_walk(adj, s, v, p) ==> d <= walk_weight(adj, p)
}

/// A walk less one edge at its end is a walk to where that edge starts.
pub proof fn lemma_walk_drop_last(adj: Seq<Seq<Link>>, s: int, v: int, p: Seq<(int, int)>)
    requires
        is_walk(adj, s, v, p),
        p.len() > 0,
    ensures
        is_walk(adj, s, p.last().0, p.drop_last()),
        step_link(adj, p.last()).dst == v,
        step_link(adj, p.last()).src == p.last().0,
        valid_step(adj, p.last()),
{
    let q = p.drop_last();
    assert forall|i: int| 0 <= i < q.len() - 1 implies step_link(adj, #[trigger] q[i]).dst == q[i + 1].0 by {
        assert(q[i] == p[i] && q[i + 1] == p[i + 1]);
    }
    if q.len() > 0 {
        assert(step_link(adj, p[q.len() - 1]).dst == p[q.len() as int].0);
    }
}

/// A walk followed by a stored edge out of its end is a walk.
pub proof fn lemma_walk_push(adj: Seq<Seq<Link>>, s: int, u: int, p: Seq<(int, int)>, st: (int, int))
    requires
        is_walk(adj, s, u, p),
        valid_step(adj, st),
        st.0 == u,
        step_link(adj, st).src == u,
    ensures
        is_walk(adj, s, step_link(adj, st).dst as int, p.push(st)),
        walk_weight(adj, p.push(st)) == walk_weight(adj, p) + step_link(adj, st).weight,
{
    let q = p.push(st);
    assert(q.drop_last() =~= p);
    assert forall|i: int| 0 <= i < q.len() - 1 implies step_link(adj, #[trigger] q[i]).dst == q[i + 1].0 by {
        assert(q[i] == p[i]);
        if i < p.len() - 1 {
            assert(q[i + 1] == p[i + 1]);
        }
    }
    assert forall|i: int| 0 <= i < q.len() implies valid_step(adj, #[trigger] q[i]) by {
        if i < p.len() {
            assert(q[i] == p[i]);
        }
    }
    assert forall|i: int| 0 <= i < q.len() implies (#[trigger] step_link(adj, q[i])).src == q[i].0 by {
        if i < p.len() {
            assert(q[i] == p[i]);
        }
    }
}

/// Two walks, the second starting where the first ends, make a walk whose
/// weight is the sum of theirs.
pub proof fn lemma_walk_concat(adj: Seq<Seq<Link>>, s: int, m: int, v: int, p: Seq<(int, int)>, q: Seq<(int, int)>)
    requires
        is_walk(adj, s, m, p),
        is_walk(adj, m, v, q),
    ensures
        is_walk(adj, s, v, p + q),
        walk_weight(adj, p + q) == walk_weight(adj, p) + walk_weight(adj, q),
    decreases q.len(),
{
    if q.len() == 0 {
        assert(p + q =~= p);
    } else {
        let q2 = q.drop_last();
        let u = q.last().0;
        lemma_walk_drop_last(adj, m, v, q);
        lemma_walk_concat(adj, s, m, u, p, q2);
        lemma_walk_push(adj, s, u, p + q2, q.last());
        assert((p + q2).push(q.last()) =~= p + q);
    }
}

/// Distances that are closed under every edge, with a cost per edge of 1
/// (`unit`) or of its weight, bound the cost of every walk from `s`.
pub proof fn lemma_closed_bounds_walks(
    adj: Seq<Seq<Link>>,
    dist: Seq<Option<int>>,
    unit: bool,
    s: int,
    v: int,
    p: Seq<(int, int)>,
)
    requires
        is_walk(adj, s, v, p),
        0 <= s < dist.len(),
        dist[s] is Some,
        dist.len() == adj.len(),
        forall|u: int, k: int|
            0 <= u < adj.len() && 0 <= k < adj[u].len() && dist[u] is Some ==> {
                let l = #[trigger] adj[u][k];
                &&& 0 <= l.dst < adj.len()
                &&& dist[l.dst as int] is Some
                &&& dist[l.dst as int].unwrap() <= dist[u].unwrap() + if unit { 1 } else { l.weight as int }
            },
    ensures
        0 <= v < dist.len(),
        dist[v] is Some,
        dist[v].unwrap() <= dist[s].unwrap() + if unit { p.len() as int } else { walk_weight(adj, p) },
    decreases p.len(),
{
    if p.len() > 0 {
        let u = p.last().0;
        lemma_walk_drop_last(adj, s, v, p);
        lemma_closed_bounds_walks(adj, dist, unit, s, u, p.drop_last());
        assert(adj[u][p.last().1] == step_link(adj, p.last()));
    }
}

/// `a` with the logical edge `l` inserted: in its source's list, and when
/// undirected its reverse in its destination's list.
pub open spec fn add_link(a: Seq<Seq<Link>>, directed: bool, l: Link) -> Seq<Seq<Link>> {
    let b = a.update(l.src as int, a[l.src as int].push(l));
    if directed {
        b
    } else {
        b.update(l.dst as int, b[l.dst as int].push(Link { src: l.dst, dst: l.src, weight: l.weight }))
    }
}

/// `t` with the tag `g` of the logical edge `l` recorded where [`add_link`]
/// stores its link, and again for its reverse when undirected.
pub open spec fn add_tag(t: Seq<Seq<Seq<char>>>, directed: bool, l: Link, g: Seq<char>) -> Seq<Seq<Seq<char>>> {
    let b = t.update(l.src as int, t[l.src as int].push(g));
    if directed {
        b
    } else {
        b.update(l.dst as int, b[l.dst as int].push(g))
    }
}

/// The adjacency lists of `n` nodes after inserting `edges` in order.
pub open spec fn adj_after(n: nat, directed: bool, edges: Seq<(usize, usize, i32)>) -> Seq<Seq<Link>>
    decreases edges.len(),
{
    if edges.len() == 0 {
        Seq::new(n, |u: int| Seq::<Link>::empty())
    } else {
        let e = edges.last();
        add_link(adj_after(n, directed, edges.drop_last()), directed, Link { src: e.0, dst: e.1, weight: e.2 })
    }
}

impl<T: Edge> Graph<T> {
    /// The adjacency lists, each edge seen through its `link`.
    pub closed spec fn adj(&self) -> Seq<Seq<Link>> {
        Seq::new(
            self.edges@.len(),
            |u: int| Seq::new(self.edges@[u]@.len(), |k: int| self.edges@[u]@[k].link()),
        )
    }

    /// The tags of the stored edges, list by list.
    pub closed spec fn tags(&self) -> Seq<Seq<Seq<char>>> {
        Seq::new(self.edges@.len(), |u: int| Seq::new(self.edges@[u]@.len(), |k: int| self.edges@[u]@[k].tag()))
    }

    pub closed spec fn node_count(&self) -> nat {
        self.n_nodes as nat
    }

    /// There is one adjacency list per node.
    pub proof fn lemma_adj_len(&self)
        requires
            self.wf(),
        ensures
            self.adj().len() == self.node_count(),
    {
    }

    /// The number of logical edges inserted so far (an undirected edge counts once).
    pub closed spec fn edge_count(&self) -> nat {
        self.n_edges as nat
    }

    pub closed spec fn directed(&self) -> bool {
        self.g_type == GraphType::GraphDirected
    }

    /// The number of stored edges that end at `v`.
    pub open spec fn in_degree(&self, v: int) -> nat {
        in_count(self.adj(), v, self.adj().len() as int)
    }

    /// Every stored edge starts at the node whose list holds it and ends at a
    /// node of the graph; the degree counters agree with the lists.
    pub closed spec fn wf(&self) -> bool {
        &&& self.lists_wf()
        &&& forall|v: int| 0 <= v < self.n_nodes ==> self.in_deg@[v] <= 2 * self.n_edges
        &&& forall|u: int| 0 <= u < self.n_nodes ==> self.out_deg@[u] <= 2 * self.n_edges
    }

    closed spec fn lists_wf(&self) -> bool {
        &&& self.n_nodes <= MAX_NODES
        &&& self.edges@.len() == self.n_nodes
        &&& self.in_deg@.len() == self.n_nodes
        &&& self.out_deg@.len() == self.n_nodes
        &&& forall|u: int, k: int|
            0 <= u < self.adj().len() && 0 <= k < self.adj()[u].len() ==> {
                &&& (#[trigger] self.adj()[u][k]).src == u
                &&& self.adj()[u][k].dst < self.n_nodes
            }
        &&& forall|u: int| 0 <= u < self.n_nodes ==> self.out_deg@[u] == self.adj()[u].len()
        &&& forall|v: int| 0 <= v < self.n_nodes ==> self.in_deg@[v] == self.in_degree(v)
    }

    /// The degree counters agree with the lists, and every stored edge
    /// starts at the node whose list holds it and ends at a node.
    pub proof fn lemma_wf_facts(&self)
        requires
            self.wf(),
        ensures
            self.adj().len() == self.node_count(),
            forall|u: int| 0 <= u < self.node_count() ==> #[trigger] self.out_deg_of(u) == self.adj()[u].len(),
            forall|v: int| 0 <= v < self.node_count() ==> #[trigger] self.in_deg_of(v) == self.in_degree(v),
            forall|u: int, k: int|
                0 <= u < self.adj().len() && 0 <= k < self.adj()[u].len() ==> (#[trigger] self.adj()[u][k]).src == u
                    && self.adj()[u][k].dst < self.node_count(),
    {
    }

    /// Stored degree counters, readable in specifications.
    pub closed spec fn out_deg_of(&self, u: int) -> int {
        self.out_deg@[u] as int
    }

    pub closed spec fn in_deg_of(&self, v: int) -> int {
        self.in_deg@[v] as int
    }

    /// An empty graph with `n_nodes` nodes.
    pub fn new(n_nodes: usize, g_type: GraphType) -> (r: Self)
        requires
            n_nodes <= MAX_NODES,
        ensures
            r.wf(),
            r.node_count() == n_nodes,
            r.edge_count() == 0,
            r.directed() == (g_type == GraphType::GraphDirected),
            r.adj() == Seq::new(n_nodes as nat, |u: int| Seq::<Link>::empty()),
    {
        let mut edges: Vec<Vec<T>> = Vec::new();
        let mut in_deg: Vec<usize> = Vec::new();
        let mut out_deg: Vec<usize> = Vec::new();
        let mut i: usize = 0;
        while i < n_nodes
            invariant
                i <= n_nodes,
                edges@.len() == i,
                in_deg@.len() == i,
                out_deg@.len() == i,
                forall|u: int| 0 <= u < i ==> (#[trigger] edges@[u])@.len() == 0,
                forall|u: int| 0 <= u < i ==> in_deg@[u] == 0 && out_deg@[u] == 0,
            decreases n_nodes - i,
        {
            edges.push(Vec::new());
            in_deg.push(0);
            out_deg.push(0);
            i = i + 1;
        }
        let graph = Graph { n_nodes, n_edges: 0, g_type, edges, in_deg, out_deg };
        assert(graph.adj() =~~= Seq::new(n_nodes as nat, |u: int| Seq::<Link>::empty()));
        assert forall|v: int| 0 <= v < n_nodes implies graph.in_deg@[v] == graph.in_degree(v) by {
            assert forall|m: int| 0 <= m <= n_nodes implies in_count(graph.adj(), v, m) == 0 by {
                lemma_in_count_zero(graph.adj(), v, m);
            }
        }
        graph
    }

    pub fn n_nodes(&self) -> (r: usize)
        ensures
            r == self.node_count(),
    {
        self.n_nodes
    }

    /// The outgoing edges of `node`, in insertion order.
    pub fn edges(&self, node: usize) -> (r: &Vec<T>)
        requires
            self.wf(),
            node < self.node_count(),
        ensures
            r@.len() == self.adj()[node as int].len(),
            forall|k: int| 0 <= k < r@.len() ==> (#[trigger] r@[k]).link() == self.adj()[node as int][k],
            forall|k: int| 0 <= k < r@.len() ==> (#[trigger] r@[k]).link().src == node && r@[k].link().dst < self.node_count(),
    {
        proof {
            assert forall|k: int| 0 <= k < self.edges@[node as int]@.len() implies (#[trigger] self.edges@[node as int]@[k]).link().src == node
                && self.edges@[node as int]@[k].link().dst < self.node_count() by {
                assert(self.adj()[node as int][k] == self.edges@[node as int]@[k].link());
            }
        }
        &self.edges[node]
    }

    fn insert_edge(&mut self, edge: T)
        requires
            old(self).lists_wf(),
            edge.link().src < old(self).n_nodes,
            edge.link().dst < old(self).n_nodes,
            forall|v: int| 0 <= v < old(self).n_nodes ==> old(self).in_deg@[v] + 1 <= 2 * old(self).n_edges + 2,
            forall|u: int| 0 <= u < old(self).n_nodes ==> old(self).out_deg@[u] + 1 <= 2 * old(self).n_edges + 2,
            old(self).n_edges < usize::MAX / 2,
        ensures
            final(self).adj() == old(self).adj().update(
                edge.link().src as int,
                old(self).adj()[edge.link().src as int].push(edge.link()),
            ),
            final(self).tags() == old(self).tags().update(
                edge.link().src as int,
                old(self).tags()[edge.link().src as int].push(edge.tag()),
            ),
            final(self).n_nodes == old(self).n_nodes,
            final(self).n_edges == old(self).n_edges,
            final(self).g_type == old(self).g_type,
            final(self).lists_wf(),
            forall|v: int| 0 <= v < final(self).n_nodes ==> #[trigger] final(self).in_deg@[v] == old(self).in_deg@[v] + if v == edge.link().dst { 1int } else { 0int },
            forall|u: int| 0 <= u < final(self).n_nodes ==> #[trigger] final(self).out_deg@[u] == old(self).out_deg@[u] + if u == edge.link().src { 1int } else { 0int },
    {
        let src = edge.source();
        let dst = edge.destination();
        let ghost old_adj = self.adj();
        let ghost l = edge.link();
        let ghost old_tags = self.tags();
        let ghost tg = edge.tag();
        self.in_deg.set(dst, self.in_deg[dst] + 1);
        self.out_deg.set(src, self.out_deg[src] + 1);
        self.edges[src].push(edge);
        proof {
            assert(self.adj() =~~= old_adj.update(src as int, old_adj[src as int].push(l)));
            assert(self.tags() =~~= old_tags.update(src as int, old_tags[src as int].push(tg)));
            assert forall|v: int| 0 <= v < self.n_nodes implies self.in_deg@[v] == self.in_degree(v) by {
                lemma_in_count_push(old_adj, src as int, l, v, old_adj.len() as int);
                assert(old(self).in_deg@[v] == old(self).in_degree(v));
                assert(self.adj().len() == old_adj.len());
            }
        }
    }

    /// The adjacency lists after inserting the logical edge `l`: in an
    /// undirected graph the reverse link is stored as well.
    pub open spec fn adj_with(&self, l: Link) -> Seq<Seq<Link>> {
        add_link(self.adj(), self.directed(), l)
    }

    /// Inserts the logical edge `edge`; in an undirected graph a reversed copy
    /// is stored in the list of its destination too.
    pub fn add_edge(&mut self, edge: T) -> (r: Result<(), GraphError>)
        requires
            old(self).wf(),
            old(self).edge_count() < usize::MAX / 2,
        ensures
            final(self).wf(),
            final(self).node_count() == old(self).node_count(),
            final(self).directed() == old(self).directed(),
            r is Err <==> (edge.link().src >= old(self).node_count() || edge.link().dst >= old(self).node_count()),
            r is Err ==> r == Err::<(), GraphError>(GraphError::NodeOutOfBounds) && *final(self) == *old(self),
            r is Ok ==> final(self).adj() == old(self).adj_with(edge.link())
                && final(self).edge_count() == old(self).edge_count() + 1,
            r is Ok ==> final(self).tags() == add_tag(old(self).tags(), old(self).directed(), edge.link(), edge.tag()),
    {
        let src = edge.source();
        let dst = edge.destination();
        if src >= self.n_nodes || dst >= self.n_nodes {
            return Err(GraphError::NodeOutOfBounds);
        }
        if self.g_type == GraphType::GraphUndirected {
            let mut rev = edge.duplicate();
            rev.set_source(dst);
            rev.set_destination(src);
            self.insert_edge(edge);
            self.insert_edge(rev);
        } else {
            self.insert_edge(edge);
        }
        let ghost before = *self;
        self.n_edges = self.n_edges + 1;
        proof {
            assert(self.adj() == before.adj());
            assert(self.tags() == before.tags());
            assert forall|v: int| 0 <= v < self.n_nodes implies self.in_deg@[v] == self.in_degree(v) by {
                assert(before.in_deg@[v] == before.in_degree(v));
            }
            assert forall|v: int| 0 <= v < self.n_nodes implies self.in_deg@[v] <= 2 * self.n_edges by {
                assert(old(self).in_deg@[v] <= 2 * old(self).n_edges);
            }
            assert forall|u: int| 0 <= u < self.n_nodes implies self.out_deg@[u] <= 2 * self.n_edges by {
                assert(old(self).out_deg@[u] <= 2 * old(self).n_edges);
            }
        }
        Ok(())
    }

    /// Creates the edge `src -> dst` of weight `weight` and inserts it as
    /// [`Graph::add_edge`] does.
    pub fn create_edge(&mut self, src: usize, dst: usize, weight: i32) -> (r: Result<(), GraphError>)
        requires
            old(self).wf(),
            old(self).edge_count() < usize::MAX / 2,
        ensures
            final(self).wf(),
            final(self).node_count() == old(self).node_count(),
            final(self).directed() == old(self).directed(),
            r is Err <==> (src >= old(self).node_count() || dst >= old(self).node_count()),
            r is Err ==> r == Err::<(), GraphError>(GraphError::NodeOutOfBounds) && *final(self) == *old(self),
            r is Ok ==> final(self).adj() == old(self).adj_with(Link { src, dst, weight })
                && final(self).edge_count() == old(self).edge_count() + 1,
    {
        self.add_edge(T::new(src, dst, weight))
    }

    /// Inserts the undirected edge `edge` together with `rev`, its reverse,
    /// which may carry a payload of its own.
    pub fn add_edge_pair(&mut self, edge: T, rev: T) -> (r: Result<(), GraphError>)
        requires
            old(self).wf(),
            !old(self).directed(),
            old(self).edge_count() < usize::MAX / 2,
            rev.link() == (Link { src: edge.link().dst, dst: edge.link().src, weight: edge.link().weight }),
        ensures
            final(self).wf(),
            final(self).node_count() == old(self).node_count(),
            final(self).directed() == old(self).directed(),
            r is Err <==> (edge.link().src >= old(self).node_count() || edge.link().dst >= old(self).node_count()),
            r is Err ==> *final(self) == *old(self),
            r is Ok ==> final(self).adj() == old(self).adj_with(edge.link())
                && final(self).edge_count() == old(self).edge_count() + 1,
    {
        let src = edge.source();
        let dst = edge.destination();
        if src >= self.n_nodes || dst >= self.n_nodes {
            return Err(GraphError::NodeOutOfBounds);
        }
        self.insert_edge(edge);
        self.insert_edge(rev);
        let ghost before = *self;
        self.n_edges = self.n_edges + 1;
        proof {
            assert(self.adj() == before.adj());
            assert forall|v: int| 0 <= v < self.n_nodes implies self.in_deg@[v] == self.in_degree(v) by {
                assert(before.in_deg@[v] == before.in_degree(v));
            }
            assert forall|v: int| 0 <= v < self.n_nodes implies self.in_deg@[v] <= 2 * self.n_edges by {
                assert(old(self).in_deg@[v] <= 2 * old(self).n_edges);
            }
            assert forall|u: int| 0 <= u < self.n_nodes implies self.out_deg@[u] <= 2 * self.n_edges by {
                assert(old(self).out_deg@[u] <= 2 * old(self).n_edges);
            }
        }
        Ok(())
    }
}


/// Builds a graph from a description: `n_nodes` nodes, `type_code` 1 for a
/// directed graph (anything else: undirected), and `edges` inserted in order
/// by [`Graph::create_edge`]. Fails where an edge names a node that does not
/// exist, or where the list does not hold `declared` edges.
pub fn from_edge_list(
    n_nodes: usize,
    declared: usize,
    type_code: usize,
    edges: &Vec<(usize, usize, i32)>,
) -> (r: Result<Graph<NormalEdge>, GraphError>)
    requires
        n_nodes <= MAX_NODES,
        edges@.len() < usize::MAX / 2,
    ensures
        r is Ok <==> (edges@.len() == declared && forall|k: int|
            0 <= k < edges@.len() ==> (#[trigger] edges@[k]).0 < n_nodes && edges@[k].1 < n_nodes),
        (exists|k: int| 0 <= k < edges@.len() && ((#[trigger] edges@[k]).0 >= n_nodes || edges@[k].1 >= n_nodes))
            ==> r == Err::<Graph<NormalEdge>, GraphError>(GraphError::NodeOutOfBounds),
        r matches Ok(g) ==> {
            &&& g.wf()
            &&& g.node_count() == n_nodes
            &&& g.edge_count() == declared
            &&& g.directed() == (type_code == 1)
            &&& g.adj() == adj_after(n_nodes as nat, type_code == 1, edges@)
        },
{
    let g_type = if type_code == 1 { GraphType::GraphDirected } else { GraphType::GraphUndirected };
    let mut graph: Graph<NormalEdge> = Graph::new(n_nodes, g_type);
    proof {
        assert(edges@.subrange(0, 0) =~= Seq::<(usize, usize, i32)>::empty());
    }
    let mut k: usize = 0;
    while k < edges.len()
        invariant
            k <= edges@.len(),
            edges@.len() < usize::MAX / 2,
            graph.wf(),
            graph.node_count() == n_nodes,
            graph.edge_count() == k,
            graph.directed() == (type_code == 1),
            graph.adj() == adj_after(n_nodes as nat, type_code == 1, edges@.subrange(0, k as int)),
            forall|x: int| 0 <= x < k ==> (#[trigger] edges@[x]).0 < n_nodes && edges@[x].1 < n_nodes,
        decreases edges@.len() - k,
    {
        proof {
            assert(edges@.subrange(0, k as int + 1).drop_last() =~= edges@.subrange(0, k as int));
        }
        let (s, d, w) = edges[k];
        match graph.create_edge(s, d, w) {
            Ok(()) => {},
            Err(e) => {
                return Err(e);
            },
        }
        k = k + 1;
    }
    proof {
        assert(edges@.subrange(0, edges@.len() as int) =~= edges@);
    }
    if graph.n_edges != declared {
        return Err(GraphError::EdgeCountMismatch);
    }
    Ok(graph)
}

proof fn lemma_in_count_zero(adj: Seq<Seq<Link>>, v: int, m: int)
    requires
        m <= adj.len(),
        forall|u: int| 0 <= u < adj.len() ==> (#[trigger] adj[u]).len() == 0,
    ensures
        in_count(adj, v, m) == 0,
    decreases m,
{
    if m > 0 {
        lemma_in_count_zero(adj, v, m - 1);
    }
}

} // verus!

pub mod traversal;
pub mod shortest;
pub mod cover;
