use vstd::prelude::*;
use vstd::set_lib::{lemma_int_range, lemma_len_subset, set_int_range};
use super::{
    Edge, Graph, Link, NegativeEdgeError, is_walk, is_shortest, is_fewest_hops, reachable, valid_step, walk_weight, lemma_walk_push,
    lemma_closed_bounds_walks, step_link, lemma_walk_concat, lemma_walk_drop_last,
};
use super::traversal::{stored, is_bfs_tree};
use crate::heap::{MinHeap, is_min_key};

verus! {

/// The largest absolute value of an edge weight.
pub open spec fn max_weight() -> int {
    0x7fff_ffff
}

/// A distance as a heap priority: "no path" sorts after every real distance.
pub open spec fn prio_of(d: Option<i64>) -> i64 {
    match d {
        Some(x) => x,
        None => i64::MAX,
    }
}

/// Every stored edge has a non-negative weight.
pub open spec fn no_negative_edge(adj: Seq<Seq<Link>>) -> bool {
    forall|u: int, k: int| 0 <= u < adj.len() && 0 <= k < adj[u].len() ==> (#[trigger] adj[u][k]).weight >= 0
}

/// What a single-source shortest-path search from `s` returns: for each
/// node, the last edge of a shortest walk to it and the weight of that walk,
/// `None` for both where no walk leads.
pub open spec fn is_sp_tree<T: Edge>(adj: Seq<Seq<Link>>, s: int, prev: Seq<Option<&T>>, dist: Seq<Option<i64>>) -> bool {
    &&& prev.len() == adj.len()
    &&& dist.len() == adj.len()
    &&& forall|v: int| 0 <= v < adj.len() ==> ((#[trigger] dist[v]) is Some <==> reachable(adj, s, v))
    &&& forall|v: int| 0 <= v < adj.len() && dist[v] is Some ==> is_shortest(adj, s, v, (#[trigger] dist[v]).unwrap() as int)
    &&& forall|v: int| 0 <= v < adj.len() && dist[v] is None ==> (#[trigger] prev[v]) is None
    &&& prev[s] is None
    &&& forall|v: int|
        0 <= v < adj.len() && v != s && dist[v] is Some ==> {
            &&& (#[trigger] prev[v]) is Some
            &&& prev[v].unwrap().link().dst == v
            &&& stored(adj, prev[v].unwrap().link())
            &&& dist[prev[v].unwrap().link().src as int] is Some
            &&& dist[prev[v].unwrap().link().src as int].unwrap() + prev[v].unwrap().link().weight == dist[v].unwrap()
        }
}

/// Every stored edge starts where its list says and ends at a node.
pub open spec fn adj_wf(adj: Seq<Seq<Link>>) -> bool {
    forall|w: int, j: int|
        0 <= w < adj.len() && 0 <= j < adj[w].len() ==> (#[trigger] adj[w][j]).src == w && adj[w][j].dst < adj.len()
}

/// The state of Dijkstra's algorithm from `s` after `settled` extractions,
/// while the first `done_k` edges of node `cur` have been relaxed.
spec fn dij_inv<T: Edge>(
    adj: Seq<Seq<Link>>,
    s: int,
    dist: Seq<Option<i64>>,
    prev: Seq<Option<&T>>,
    added: Seq<bool>,
    hv: Map<usize, i64>,
    wit: Seq<Seq<(int, int)>>,
    settled: int,
    cur: int,
    done_k: int,
) -> bool {
    let n = adj.len() as int;
    &&& 0 <= s < n
    &&& n <= 0xffff_ffff
    &&& adj_wf(adj)
    &&& dist.len() == n
    &&& prev.len() == n
    &&& added.len() == n
    &&& wit.len() == n
    &&& 0 <= settled <= n
    &&& forall|v: int| 0 <= v < n ==> (hv.contains_key(v as usize) <==> !(#[trigger] added[v]))
    &&& forall|v: int| 0 <= v < n && !added[v] ==> hv[v as usize] == prio_of(#[trigger] dist[v])
    &&& forall|k: usize| #[trigger] hv.contains_key(k) ==> k < n
    &&& dist[s] == Some(0i64)
    &&& forall|v: int|
        0 <= v < n && (#[trigger] dist[v]) is Some ==> {
            &&& 0 <= dist[v].unwrap() <= settled * max_weight()
            &&& is_walk(adj, s, v, wit[v])
            &&& walk_weight(adj, wit[v]) == dist[v].unwrap()
        }
    &&& forall|x: int, y: int|
        0 <= x < n && 0 <= y < n && #[trigger] added[x] && !#[trigger] added[y] ==> prio_of(dist[x]) <= prio_of(dist[y])
    &&& 0 <= cur < n ==> added[cur] && forall|x: int| 0 <= x < n && #[trigger] added[x] ==> prio_of(dist[x]) <= prio_of(dist[cur])
    &&& forall|u: int, k: int|
        0 <= u < n && added[u] && 0 <= k < adj[u].len() && (u != cur || k < done_k) ==> {
            let l = #[trigger] adj[u][k];
            &&& l.weight >= 0
            &&& dist[u] is Some ==> dist[l.dst as int] is Some && dist[l.dst as int].unwrap() <= dist[u].unwrap() + l.weight
        }
    &&& prev[s] is None
    &&& forall|v: int| 0 <= v < n && dist[v] is None ==> (#[trigger] prev[v]) is None
    &&& forall|v: int|
        0 <= v < n && v != s && dist[v] is Some ==> {
            &&& (#[trigger] prev[v]) is Some
            &&& prev[v].unwrap().link().dst == v
            &&& stored(adj, prev[v].unwrap().link())
            &&& added[prev[v].unwrap().link().src as int]
            &&& dist[prev[v].unwrap().link().src as int] is Some
            &&& dist[prev[v].unwrap().link().src as int].unwrap() + prev[v].unwrap().link().weight == dist[v].unwrap()
        }
}

proof fn lemma_dij_extract<T: Edge>(
    adj: Seq<Seq<Link>>,
    s: int,
    dist: Seq<Option<i64>>,
    prev: Seq<Option<&T>>,
    added: Seq<bool>,
    hv: Map<usize, i64>,
    wit: Seq<Seq<(int, int)>>,
    settled: int,
    u: usize,
)
    requires
        dij_inv(adj, s, dist, prev, added, hv, wit, settled, -1, 0),
        is_min_key(hv, u),
        settled < adj.len(),
    ensures
        u < adj.len(),
        !added[u as int],
        dij_inv(adj, s, dist, prev, added.update(u as int, true), hv.remove(u), wit, settled + 1, u as int, 0),
{
    let n = adj.len() as int;
    let added2 = added.update(u as int, true);
    assert forall|x: int, y: int|
        0 <= x < n && 0 <= y < n && #[trigger] added2[x] && !#[trigger] added2[y] implies prio_of(dist[x])
        <= prio_of(dist[y]) by {
        assert(hv.contains_key(y as usize));
        if x == u as int {
            assert(hv[u] <= hv[y as usize]);
        }
    }
    assert forall|v: int| 0 <= v < n && (#[trigger] dist[v]) is Some implies dist[v].unwrap() <= (settled + 1) * max_weight() by {
    }
    assert forall|v: int| 0 <= v < n implies (hv.remove(u).contains_key(v as usize) <==> !(#[trigger] added2[v])) by {
    }
    assert forall|x: int|
        0 <= x < n && x != s && dist[x] is Some implies #[trigger] added2[prev[x].unwrap().link().src as int] by {
        let y = prev[x].unwrap().link().src as int;
        assert(added[y]);
    }
    assert forall|x: int| 0 <= x < n && #[trigger] added2[x] implies prio_of(dist[x]) <= prio_of(dist[u as int]) by {
        if x != u as int {
            assert(added[x] && !added[u as int]);
        }
    }
    assert forall|v: int| 0 <= v < n && !added2[v] implies hv.remove(u)[v as usize] == prio_of(#[trigger] dist[v]) by {
        assert(!added[v]);
    }
    assert forall|k: usize| #[trigger] hv.remove(u).contains_key(k) implies k < n by {
        assert(hv.contains_key(k));
    }
    assert forall|w: int, j: int|
        0 <= w < n && added2[w] && 0 <= j < adj[w].len() && (w != u || j < 0) implies {
            let l = #[trigger] adj[w][j];
            &&& l.weight >= 0
            &&& dist[w] is Some ==> dist[l.dst as int] is Some && dist[l.dst as int].unwrap() <= dist[w].unwrap() + l.weight
        } by {
        assert(added[w]);
    }
}

proof fn lemma_dij_skip<T: Edge>(
    adj: Seq<Seq<Link>>,
    s: int,
    dist: Seq<Option<i64>>,
    prev: Seq<Option<&T>>,
    added: Seq<bool>,
    hv: Map<usize, i64>,
    wit: Seq<Seq<(int, int)>>,
    settled: int,
    u: int,
    k: int,
)
    requires
        dij_inv(adj, s, dist, prev, added, hv, wit, settled, u, k),
        0 <= u < adj.len(),
        added[u],
        0 <= k < adj[u].len(),
        adj[u][k].weight >= 0,
        forall|y: int| 0 <= y < adj.len() && !added[y] ==> prio_of(dist[u]) <= prio_of(#[trigger] dist[y]),
        dist[u] is Some ==> dist[adj[u][k].dst as int] is Some && dist[adj[u][k].dst as int].unwrap() <= dist[u].unwrap()
            + adj[u][k].weight,
    ensures
        dij_inv(adj, s, dist, prev, added, hv, wit, settled, u, k + 1),
{
}

#[verifier::rlimit(100)]
proof fn lemma_dij_relax<T: Edge>(
    adj: Seq<Seq<Link>>,
    s: int,
    dist: Seq<Option<i64>>,
    prev: Seq<Option<&T>>,
    added: Seq<bool>,
    hv: Map<usize, i64>,
    wit: Seq<Seq<(int, int)>>,
    settled: int,
    u: int,
    k: int,
    e: &T,
    nd: i64,
)
    requires
        dij_inv(adj, s, dist, prev, added, hv, wit, settled, u, k),
        0 <= u < adj.len(),
        added[u],
        settled >= 1,
        0 <= k < adj[u].len(),
        e.link() == adj[u][k],
        e.link().weight >= 0,
        !added[e.link().dst as int],
        dist[u] is Some,
        dist[u].unwrap() <= (settled - 1) * max_weight(),
        nd == dist[u].unwrap() + e.link().weight,
        prio_of(dist[e.link().dst as int]) > nd,
        forall|y: int| 0 <= y < adj.len() && !added[y] ==> prio_of(dist[u]) <= prio_of(#[trigger] dist[y]),
    ensures
        ({
            let v = e.link().dst as int;
            dij_inv(
                adj,
                s,
                dist.update(v, Some(nd)),
                prev.update(v, Some(e)),
                added,
                hv.insert(v as usize, nd),
                wit.update(v, wit[u].push((u, k))),
                settled,
                u,
                k + 1,
            )
        }),
{
    let n = adj.len() as int;
    let v = e.link().dst as int;
    let st = (u, k);
    assert(step_link(adj, st) == adj[u][k]);
    lemma_walk_push(adj, s, u, wit[u], st);
    assert(stored(adj, e.link()));
    let dist2 = dist.update(v, Some(nd));
    let prev2 = prev.update(v, Some(e));
    let wit2 = wit.update(v, wit[u].push((u, k)));
    let hv2 = hv.insert(v as usize, nd);
    assert(v != u);
    assert(v != s) by {
        assert(dist[s] == Some(0i64));
    }
    assert forall|x: int| 0 <= x < n implies (hv2.contains_key(x as usize) <==> !(#[trigger] added[x])) by {
    }
    assert forall|x: int| 0 <= x < n && !added[x] implies hv2[x as usize] == prio_of(#[trigger] dist2[x]) by {
    }
    assert forall|x: int|
        0 <= x < n && (#[trigger] dist2[x]) is Some implies {
            &&& 0 <= dist2[x].unwrap() <= settled * max_weight()
            &&& is_walk(adj, s, x, wit2[x])
            &&& walk_weight(adj, wit2[x]) == dist2[x].unwrap()
        } by {
    }
    assert forall|x: int, y: int|
        0 <= x < n && 0 <= y < n && #[trigger] added[x] && !#[trigger] added[y] implies prio_of(dist2[x]) <= prio_of(
        dist2[y]) by {
        if y == v {
            assert(prio_of(dist[x]) <= prio_of(dist[u]));
        }
    }
    assert forall|w: int, j: int|
        0 <= w < n && added[w] && 0 <= j < adj[w].len() && (w != u || j < k + 1) implies {
            let l = #[trigger] adj[w][j];
            &&& l.weight >= 0
            &&& dist2[w] is Some ==> dist2[l.dst as int] is Some && dist2[l.dst as int].unwrap() <= dist2[w].unwrap() + l.weight
        } by {
        if w == u && j == k {
        } else {
            let l = adj[w][j];
            if dist[w] is Some && l.dst as int == v {
                assert(dist[v] is Some);
            }
        }
    }
    assert forall|x: int|
        0 <= x < n && x != s && dist2[x] is Some implies {
            &&& (#[trigger] prev2[x]) is Some
            &&& prev2[x].unwrap().link().dst == x
            &&& stored(adj, prev2[x].unwrap().link())
            &&& added[prev2[x].unwrap().link().src as int]
            &&& dist2[prev2[x].unwrap().link().src as int] is Some
            &&& dist2[prev2[x].unwrap().link().src as int].unwrap() + prev2[x].unwrap().link().weight == dist2[x].unwrap()
        } by {
        if x != v {
            let y = prev[x].unwrap().link().src as int;
            assert(added[y]);
            assert(y != v);
        } else {
            assert(e.link().src == u);
        }
    }
}

proof fn lemma_dij_next<T: Edge>(
    adj: Seq<Seq<Link>>,
    s: int,
    dist: Seq<Option<i64>>,
    prev: Seq<Option<&T>>,
    added: Seq<bool>,
    hv: Map<usize, i64>,
    wit: Seq<Seq<(int, int)>>,
    settled: int,
    u: int,
)
    requires
        0 <= u < adj.len(),
        dij_inv(adj, s, dist, prev, added, hv, wit, settled, u, adj[u].len() as int),
    ensures
        dij_inv(adj, s, dist, prev, added, hv, wit, settled, -1, 0),
{
}

proof fn lemma_dij_done<T: Edge>(
    adj: Seq<Seq<Link>>,
    s: int,
    dist: Seq<Option<i64>>,
    prev: Seq<Option<&T>>,
    added: Seq<bool>,
    hv: Map<usize, i64>,
    wit: Seq<Seq<(int, int)>>,
    settled: int,
)
    requires
        dij_inv(adj, s, dist, prev, added, hv, wit, settled, -1, 0),
        hv == Map::<usize, i64>::empty(),
    ensures
        is_sp_tree(adj, s, prev, dist),
        no_negative_edge(adj),
{
    let n = adj.len() as int;
    assert forall|v: int| 0 <= v < n implies #[trigger] added[v] by {
        assert(!hv.contains_key(v as usize));
    }
    let dist_opt = Seq::new(n as nat, |v: int| if dist[v] is Some { Some(dist[v].unwrap() as int) } else { None });
    assert forall|u: int, k: int|
        0 <= u < adj.len() && 0 <= k < adj[u].len() && dist_opt[u] is Some implies {
            let l = #[trigger] adj[u][k];
            &&& 0 <= l.dst < adj.len()
            &&& dist_opt[l.dst as int] is Some
            &&& dist_opt[l.dst as int].unwrap() <= dist_opt[u].unwrap() + l.weight as int
        } by {
        assert(added[u]);
    }
    assert forall|u: int, k: int| 0 <= u < adj.len() && 0 <= k < adj[u].len() implies (#[trigger] adj[u][k]).weight >= 0 by {
        assert(added[u]);
    }
    assert forall|v: int| 0 <= v < n implies ((#[trigger] dist[v]) is Some <==> reachable(adj, s, v)) && (dist[v] is Some
        ==> is_shortest(adj, s, v, dist[v].unwrap() as int)) by {
        if dist[v] is Some {
            assert(is_walk(adj, s, v, wit[v]));
            assert forall|p: Seq<(int, int)>| #[trigger] is_walk(adj, s, v, p) implies dist[v].unwrap() <= walk_weight(adj, p) by {
                lemma_closed_bounds_walks(adj, dist_opt, false, s, v, p);
            }
        } else if reachable(adj, s, v) {
            let p = choose|p: Seq<(int, int)>| #[trigger] is_walk(adj, s, v, p);
            lemma_closed_bounds_walks(adj, dist_opt, false, s, v, p);
        }
    }
}

impl<T: Edge> Graph<T> {
    /// Dijkstra's algorithm from `source`: for each node the last edge of a
    /// lightest walk to it and that walk's weight (`None`: unreachable). Fails
    /// on a graph with an edge of negative weight.
    #[verifier::rlimit(100)]
    pub fn dijkstra(&self, source: usize) -> (r: Result<(Vec<Option<&T>>, Vec<Option<i64>>), NegativeEdgeError>)
        requires
            self.wf(),
            source < self.node_count(),
        ensures
            r is Err <==> !no_negative_edge(self.adj()),
            r matches Ok(t) ==> is_sp_tree(self.adj(), source as int, t.0@, t.1@),
    {
        let n = self.n_nodes;
        let ghost adj = self.adj();
        let mut distances: Vec<Option<i64>> = Vec::new();
        let mut added: Vec<bool> = Vec::new();
        let mut prev_edge: Vec<Option<&T>> = Vec::new();
        let mut i: usize = 0;
        while i < n
            invariant
                i <= n,
                distances@.len() == i,
                added@.len() == i,
                prev_edge@.len() == i,
                forall|v: int| 0 <= v < i ==> #[trigger] distances@[v] is None,
                forall|v: int| 0 <= v < i ==> !#[trigger] added@[v],
                forall|v: int| 0 <= v < i ==> (#[trigger] prev_edge@[v]) is None,
            decreases n - i,
        {
            distances.push(None);
            added.push(false);
            prev_edge.push(None);
            i = i + 1;
        }
        distances.set(source, Some(0));
        let mut heap = MinHeap::new();
        let mut i: usize = 0;
        while i < n
            invariant
                i <= n,
                n <= 0x3fff_fff0,
                distances@.len() == n,
                heap.wf(),
                heap.len() == i,
                heap.view() == Map::new(|k: usize| k < i, |k: usize| prio_of(distances@[k as int])),
            decreases n - i,
        {
            let p = match distances[i] {
                Some(d) => d,
                None => i64::MAX,
            };
            let ghost hv = heap.view();
            heap.insert(i, p);
            proof {
                assert(heap.view() =~= Map::new(|k: usize| k < i + 1, |k: usize| prio_of(distances@[k as int])));
            }
            i = i + 1;
        }
        let ghost mut wit: Seq<Seq<(int, int)>> = Seq::new(n as nat, |v: int| Seq::<(int, int)>::empty());
        let ghost mut settled: int = 0;
        proof {
            assert(is_walk(adj, source as int, source as int, wit[source as int]));
            assert(dij_inv(adj, source as int, distances@, prev_edge@, added@, heap.view(), wit, settled, -1, 0));
        }
        while !heap.is_empty()
            invariant
                self.wf(),
                adj == self.adj(),
                n == self.node_count(),
                heap.wf(),
                heap.len() + settled == n,
                dij_inv(adj, source as int, distances@, prev_edge@, added@, heap.view(), wit, settled, -1, 0),
            decreases heap.len(),
        {
            let ghost hv = heap.view();
            let u = heap.delete_min();
            proof {
                lemma_dij_extract(adj, source as int, distances@, prev_edge@, added@, hv, wit, settled, u);
                settled = settled + 1;
            }
            added.set(u, true);
            let du_opt = distances[u];
            let list = &self.edges[u];
            let len = list.len();
            let mut k: usize = 0;
            while k < len
                invariant
                    self.wf(),
                    adj == self.adj(),
                    n == self.node_count(),
                    heap.wf(),
                    heap.len() + settled == n,
                    u < n,
                    list@ == self.edges@[u as int]@,
                    len == adj[u as int].len(),
                    k <= len,
                    du_opt == distances@[u as int],
                    added@[u as int],
                    settled >= 1,
                    du_opt is Some ==> du_opt.unwrap() <= (settled - 1) * max_weight(),
                    forall|y: int| 0 <= y < n && !added@[y] ==> prio_of(du_opt) <= prio_of(#[trigger] distances@[y]),
                    dij_inv(adj, source as int, distances@, prev_edge@, added@, heap.view(), wit, settled, u as int, k as int),
                decreases len - k,
            {
                let edge = &list[k];
                let w = edge.weight();
                let dst = edge.destination();
                proof {
                    assert(adj[u as int][k as int] == edge.link());
                }
                if w < 0 {
                    return Err(NegativeEdgeError);
                }
                let mut relaxed = false;
                if !added[dst] {
                    if let Some(du) = du_opt {
                        let nd = du + w as i64;
                        let better = match distances[dst] {
                            None => true,
                            Some(dv) => nd < dv,
                        };
                        if better {
                            proof {
                                lemma_dij_relax(adj, source as int, distances@, prev_edge@, added@, heap.view(), wit, settled, u as int, k as int, edge, nd);
                                wit = wit.update(dst as int, wit[u as int].push((u as int, k as int)));
                            }
                            distances.set(dst, Some(nd));
                            heap.change_prio(dst, nd);
                            prev_edge.set(dst, Some(edge));
                            relaxed = true;
                        }
                    }
                }
                if !relaxed {
                    proof {
                        lemma_dij_skip(adj, source as int, distances@, prev_edge@, added@, heap.view(), wit, settled, u as int, k as int);
                    }
                }
                k = k + 1;
            }
            proof {
                lemma_dij_next(adj, source as int, distances@, prev_edge@, added@, heap.view(), wit, settled, u as int);
            }
        }
        proof {
            lemma_dij_done(adj, source as int, distances@, prev_edge@, added@, heap.view(), wit, settled);
        }
        Ok((prev_edge, distances))
    }
}


/// Some closed walk of negative weight can be reached from `s`.
pub open spec fn neg_cycle_reachable(adj: Seq<Seq<Link>>, s: int) -> bool {
    exists|x: int, p: Seq<(int, int)>, c: Seq<(int, int)>|
        #[trigger] is_walk(adj, s, x, p) && #[trigger] is_walk(adj, x, x, c) && walk_weight(adj, c) < 0
}

/// The node a walk `p` from `s` to `v` is at after `i` steps.
spec fn node_at(p: Seq<(int, int)>, v: int, i: int) -> int {
    if i < p.len() { p[i].0 } else { v }
}

proof fn lemma_walk_sub(adj: Seq<Seq<Link>>, s: int, v: int, p: Seq<(int, int)>, i: int, j: int)
    requires
        is_walk(adj, s, v, p),
        0 <= i <= j <= p.len(),
    ensures
        is_walk(adj, node_at(p, v, i), node_at(p, v, j), p.subrange(i, j)),
{
    let q = p.subrange(i, j);
    assert forall|a: int| 0 <= a < q.len() - 1 implies step_link(adj, #[trigger] q[a]).dst == q[a + 1].0 by {
        assert(q[a] == p[i + a] && q[a + 1] == p[i + a + 1]);
    }
    assert forall|a: int| 0 <= a < q.len() implies valid_step(adj, #[trigger] q[a]) by {
        assert(q[a] == p[i + a]);
    }
    assert forall|a: int| 0 <= a < q.len() implies (#[trigger] step_link(adj, q[a])).src == q[a].0 by {
        assert(q[a] == p[i + a]);
    }
    if j > i {
        assert(q.last() == p[j - 1]);
        if j < p.len() {
            assert(step_link(adj, p[j - 1]).dst == p[j].0);
        }
    }
}

proof fn lemma_walk_weight_lower(adj: Seq<Seq<Link>>, s: int, v: int, p: Seq<(int, int)>)
    requires
        is_walk(adj, s, v, p),
        forall|u: int, k: int| 0 <= u < adj.len() && 0 <= k < adj[u].len() ==> (#[trigger] adj[u][k]).weight >= -(max_weight() + 1),
    ensures
        walk_weight(adj, p) >= -(p.len() * (max_weight() + 1)),
    decreases p.len(),
{
    if p.len() > 0 {
        lemma_walk_drop_last(adj, s, v, p);
        lemma_walk_weight_lower(adj, s, p.last().0, p.drop_last());
        assert(adj[p.last().0][p.last().1] == step_link(adj, p.last()));
        assert((p.len() - 1) * (max_weight() + 1) == p.len() * (max_weight() + 1) - (max_weight() + 1)) by (nonlinear_arith);
    }
}

/// More than `n` values in `0..n` repeat one.
proof fn lemma_repeat(ns: Seq<int>, n: int) -> (r: (int, int))
    requires
        0 <= n < ns.len(),
        forall|i: int| 0 <= i < ns.len() ==> 0 <= #[trigger] ns[i] < n,
    ensures
        0 <= r.0 < r.1 < ns.len(),
        ns[r.0] == ns[r.1],
{
    if ns.no_duplicates() {
        ns.unique_seq_to_set();
        vstd::set_lib::lemma_int_range(0, n);
        assert(ns.to_set().subset_of(vstd::set_lib::set_int_range(0, n))) by {
            assert forall|x: int| ns.to_set().contains(x) implies vstd::set_lib::set_int_range(0, n).contains(x) by {
                let i = choose|i: int| 0 <= i < ns.len() && ns[i] == x;
            }
        }
        vstd::set_lib::lemma_len_subset(ns.to_set(), vstd::set_lib::set_int_range(0, n));
    }
    let (i, j) = choose|i: int, j: int| 0 <= i < ns.len() && 0 <= j < ns.len() && i != j && ns[i] == ns[j];
    if i < j { (i, j) } else { (j, i) }
}

/// Without a reachable negative cycle, every walk from `s` can be replaced
/// by one of fewer than `n` edges that weighs no more.
#[verifier::rlimit(100)]
proof fn lemma_short_walk(adj: Seq<Seq<Link>>, s: int, v: int, p: Seq<(int, int)>) -> (q: Seq<(int, int)>)
    requires
        adj_wf(adj),
        0 <= s < adj.len(),
        !neg_cycle_reachable(adj, s),
        is_walk(adj, s, v, p),
    ensures
        is_walk(adj, s, v, q),
        q.len() < adj.len(),
        walk_weight(adj, q) <= walk_weight(adj, p),
        forall|m: int| inner_lt(p, m) ==> #[trigger] inner_lt(q, m),
    decreases p.len(),
{
    let n = adj.len() as int;
    if p.len() < n {
        p
    } else {
        let ns = Seq::new((p.len() + 1) as nat, |i: int| node_at(p, v, i));
        assert forall|i: int| 0 <= i < ns.len() implies 0 <= #[trigger] ns[i] < n by {
            if i < p.len() {
                assert(valid_step(adj, p[i]));
            } else {
                lemma_walk_drop_last(adj, s, v, p);
                assert(adj[p.last().0][p.last().1] == step_link(adj, p.last()));
            }
        }
        let (a, b) = lemma_repeat(ns, n);
        let x = ns[a];
        assert(ns[b] == x);
        lemma_walk_sub(adj, s, v, p, 0, a);
        lemma_walk_sub(adj, s, v, p, a, b);
        lemma_walk_sub(adj, s, v, p, b, p.len() as int);
        let pre = p.subrange(0, a);
        let cyc = p.subrange(a, b);
        let post = p.subrange(b, p.len() as int);
        assert(node_at(p, v, 0) == s) by {
            assert(p.len() > 0);
        }
        assert(node_at(p, v, p.len() as int) == v);
        lemma_walk_concat(adj, s, x, x, pre, cyc);
        lemma_walk_concat(adj, s, x, v, pre + cyc, post);
        assert(pre + cyc + post =~= p);
        if walk_weight(adj, cyc) < 0 {
            assert(is_walk(adj, s, x, pre) && is_walk(adj, x, x, cyc));
            assert(neg_cycle_reachable(adj, s));
        }
        lemma_walk_concat(adj, s, x, v, pre, post);
        let pp = pre + post;
        assert forall|m: int| inner_lt(p, m) implies #[trigger] inner_lt(pp, m) by {
            assert forall|t: int| 0 < t < pp.len() implies #[trigger] pp[t].0 < m by {
                if t < a {
                    assert(pp[t] == p[t]);
                } else {
                    assert(pp[t] == p[t + b - a]);
                }
            }
        }
        lemma_short_walk(adj, s, v, pp)
    }
}

/// Every node that `p` passes through (neither its first nor its last) is below `k`.
pub open spec fn inner_lt(p: Seq<(int, int)>, k: int) -> bool {
    forall|t: int| 0 < t < p.len() ==> #[trigger] p[t].0 < k
}

proof fn lemma_walk_weight_upper(adj: Seq<Seq<Link>>, s: int, v: int, p: Seq<(int, int)>)
    requires
        is_walk(adj, s, v, p),
    ensures
        walk_weight(adj, p) <= p.len() * max_weight(),
    decreases p.len(),
{
    if p.len() > 0 {
        lemma_walk_drop_last(adj, s, v, p);
        lemma_walk_weight_upper(adj, s, p.last().0, p.drop_last());
        assert((p.len() - 1) * max_weight() == p.len() * max_weight() - max_weight()) by (nonlinear_arith);
    }
}

proof fn lemma_first_at(q: Seq<(int, int)>, k: int, t: int) -> (f: int)
    requires
        0 < t < q.len(),
        q[t].0 == k,
    ensures
        0 < f <= t,
        q[f].0 == k,
        forall|u: int| 0 < u < f ==> #[trigger] q[u].0 != k,
    decreases t,
{
    if exists|u: int| 0 < u < t && #[trigger] q[u].0 == k {
        let u = choose|u: int| 0 < u < t && #[trigger] q[u].0 == k;
        lemma_first_at(q, k, u)
    } else {
        t
    }
}

proof fn lemma_last_at(q: Seq<(int, int)>, k: int, t: int) -> (l: int)
    requires
        0 < t < q.len(),
        q[t].0 == k,
    ensures
        t <= l < q.len(),
        q[l].0 == k,
        forall|u: int| l < u < q.len() ==> #[trigger] q[u].0 != k,
    decreases q.len() - t,
{
    if exists|u: int| t < u < q.len() && #[trigger] q[u].0 == k {
        let u = choose|u: int| t < u < q.len() && #[trigger] q[u].0 == k;
        lemma_last_at(q, k, u)
    } else {
        t
    }
}

/// A walk through `k` with no node above `k` inside splits into a walk to `k`
/// and a walk from `k`, neither passing through a node of `k` or above, that
/// weigh no more together when no negative cycle is reachable.
#[verifier::rlimit(100)]
proof fn lemma_split_at(adj: Seq<Seq<Link>>, i: int, j: int, q: Seq<(int, int)>, k: int, t: int) -> (r: (
    Seq<(int, int)>,
    Seq<(int, int)>,
))
    requires
        adj_wf(adj),
        !neg_cycle_reachable(adj, i),
        is_walk(adj, i, j, q),
        inner_lt(q, k + 1),
        0 < t < q.len(),
        q[t].0 == k,
    ensures
        is_walk(adj, i, k, r.0),
        inner_lt(r.0, k),
        is_walk(adj, k, j, r.1),
        inner_lt(r.1, k),
        walk_weight(adj, r.0) + walk_weight(adj, r.1) <= walk_weight(adj, q),
{
    let f = lemma_first_at(q, k, t);
    let l = lemma_last_at(q, k, t);
    lemma_walk_sub(adj, i, j, q, 0, f);
    lemma_walk_sub(adj, i, j, q, f, l);
    lemma_walk_sub(adj, i, j, q, l, q.len() as int);
    let q1 = q.subrange(0, f);
    let mid = q.subrange(f, l);
    let q3 = q.subrange(l, q.len() as int);
    assert(node_at(q, j, 0) == i);
    assert(node_at(q, j, f) == k);
    assert(node_at(q, j, l) == k);
    assert(node_at(q, j, q.len() as int) == j);
    lemma_walk_concat(adj, i, k, k, q1, mid);
    lemma_walk_concat(adj, i, k, j, q1 + mid, q3);
    assert(q1 + mid + q3 =~= q);
    if walk_weight(adj, mid) < 0 {
        assert(is_walk(adj, i, k, q1) && is_walk(adj, k, k, mid));
        assert(neg_cycle_reachable(adj, i));
    }
    assert forall|u: int| 0 < u < q1.len() implies #[trigger] q1[u].0 < k by {
        assert(q1[u] == q[u]);
    }
    assert forall|u: int| 0 < u < q3.len() implies #[trigger] q3[u].0 < k by {
        assert(q3[u] == q[l + u]);
    }
    (q1, q3)
}

/// Every walk from `x` with no node of `k` or above inside weighs at least the entry `d[x][y]`.
pub open spec fn fw_exact(adj: Seq<Seq<Link>>, d: Seq<Vec<Option<i64>>>, k: int) -> bool {
    forall|x: int, y: int, p: Seq<(int, int)>|
        0 <= x < adj.len() && #[trigger] is_walk(adj, x, y, p) && #[trigger] inner_lt(p, k) ==> d[x]@[y] is Some
            && d[x]@[y].unwrap() <= walk_weight(adj, p)
}

/// One round through `k` on a walk `q` with no node above `k` inside: either
/// the old entry or the sum through `k` is no heavier than `q`.
proof fn lemma_fw_core(adj: Seq<Seq<Link>>, od: Seq<Vec<Option<i64>>>, k: int, i: int, j: int, q: Seq<(int, int)>)
    requires
        adj_wf(adj),
        0 <= i < adj.len(),
        0 <= k < adj.len(),
        !neg_cycle_reachable(adj, i),
        fw_exact(adj, od, k),
        is_walk(adj, i, j, q),
        inner_lt(q, k + 1),
    ensures
        (od[i]@[j] is Some && od[i]@[j].unwrap() <= walk_weight(adj, q)) || (od[i]@[k] is Some && od[k]@[j] is Some
            && od[i]@[k].unwrap() + od[k]@[j].unwrap() <= walk_weight(adj, q)),
{
    if exists|t: int| 0 < t < q.len() && #[trigger] q[t].0 == k {
        let t = choose|t: int| 0 < t < q.len() && #[trigger] q[t].0 == k;
        let (q1, q3) = lemma_split_at(adj, i, j, q, k, t);
        assert(od[i]@[k] is Some);
        assert(od[k]@[j] is Some);
    } else {
        assert(inner_lt(q, k));
    }
}

/// The lowest distance Bellman-Ford keeps: below it the search gives up.
pub open spec fn bf_floor(n: int) -> int {
    -(n * max_weight())
}

/// The state of Bellman-Ford from `s`: every finite distance is the weight of
/// a walk, bounded by how many nodes have a finite distance, and each
/// recorded edge leads from a node whose distance plus its weight is at most
/// the distance it gave.
spec fn bf_inv<T: Edge>(
    adj: Seq<Seq<Link>>,
    s: int,
    dist: Seq<Option<i64>>,
    prev: Seq<Option<&T>>,
    wit: Seq<Seq<(int, int)>>,
    found: Set<int>,
) -> bool {
    let n = adj.len() as int;
    &&& 0 <= s < n
    &&& n <= 0x3fff_fff0
    &&& adj_wf(adj)
    &&& dist.len() == n
    &&& prev.len() == n
    &&& wit.len() == n
    &&& set_int_range(0, n).finite()
    &&& set_int_range(0, n).len() == n
    &&& found.finite()
    &&& found.subset_of(set_int_range(0, n))
    &&& forall|v: int| 0 <= v < n ==> (found.contains(v) <==> (#[trigger] dist[v]) is Some)
    &&& dist[s] is Some
    &&& dist[s].unwrap() <= 0
    &&& dist[s].unwrap() == 0 ==> prev[s] is None
    &&& forall|v: int|
        0 <= v < n && (#[trigger] dist[v]) is Some ==> {
            &&& bf_floor(n) <= dist[v].unwrap() < found.len() * max_weight()
            &&& is_walk(adj, s, v, wit[v])
            &&& walk_weight(adj, wit[v]) == dist[v].unwrap()
        }
    &&& forall|v: int| 0 <= v < n && dist[v] is None ==> (#[trigger] prev[v]) is None
    &&& forall|v: int|
        0 <= v < n && (v != s || dist[s].unwrap() < 0) && dist[v] is Some ==> {
            &&& (#[trigger] prev[v]) is Some
            &&& prev[v].unwrap().link().dst == v
            &&& stored(adj, prev[v].unwrap().link())
            &&& dist[prev[v].unwrap().link().src as int] is Some
            &&& dist[prev[v].unwrap().link().src as int].unwrap() + prev[v].unwrap().link().weight <= dist[v].unwrap()
        }
}

#[verifier::rlimit(100)]
proof fn lemma_bf_relax<T: Edge>(
    adj: Seq<Seq<Link>>,
    s: int,
    dist: Seq<Option<i64>>,
    prev: Seq<Option<&T>>,
    wit: Seq<Seq<(int, int)>>,
    found: Set<int>,
    u: int,
    k: int,
    e: &T,
    nd: i64,
)
    requires
        bf_inv(adj, s, dist, prev, wit, found),
        0 <= u < adj.len(),
        0 <= k < adj[u].len(),
        e.link() == adj[u][k],
        dist[u] is Some,
        nd == dist[u].unwrap() + e.link().weight,
        nd >= bf_floor(adj.len() as int),
        prio_of(dist[e.link().dst as int]) > nd,
    ensures
        ({
            let v = e.link().dst as int;
            bf_inv(
                adj,
                s,
                dist.update(v, Some(nd)),
                prev.update(v, Some(e)),
                wit.update(v, wit[u].push((u, k))),
                found.insert(v),
            )
        }),
{
    let n = adj.len() as int;
    let v = e.link().dst as int;
    let st = (u, k);
    assert(step_link(adj, st) == adj[u][k]);
    lemma_walk_push(adj, s, u, wit[u], st);
    assert(stored(adj, e.link()));
    let dist2 = dist.update(v, Some(nd));
    let prev2 = prev.update(v, Some(e));
    let wit2 = wit.update(v, wit[u].push((u, k)));
    let found2 = found.insert(v);
    lemma_len_subset(found, set_int_range(0, n));
    lemma_len_subset(found2, set_int_range(0, n));
    assert(found.contains(u));
    assert(found2.len() >= found.len());
    assert forall|x: int| 0 <= x < n implies (found2.contains(x) <==> (#[trigger] dist2[x]) is Some) by {}
    assert forall|x: int|
        0 <= x < n && (#[trigger] dist2[x]) is Some implies {
            &&& bf_floor(n) <= dist2[x].unwrap() < found2.len() * max_weight()
            &&& is_walk(adj, s, x, wit2[x])
            &&& walk_weight(adj, wit2[x]) == dist2[x].unwrap()
        } by {
        if x == v {
            if dist[v] is None {
                assert(!found.contains(v));
                assert(found2.len() == found.len() + 1);
            }
        }
    }
    assert forall|x: int|
        0 <= x < n && (x != s || dist2[s].unwrap() < 0) && dist2[x] is Some implies {
            &&& (#[trigger] prev2[x]) is Some
            &&& prev2[x].unwrap().link().dst == x
            &&& stored(adj, prev2[x].unwrap().link())
            &&& dist2[prev2[x].unwrap().link().src as int] is Some
            &&& dist2[prev2[x].unwrap().link().src as int].unwrap() + prev2[x].unwrap().link().weight <= dist2[x].unwrap()
        } by {
        if x != v {
            assert(prev2[x] == prev[x]);
            if x == s {
                assert(dist[s].unwrap() < 0);
            }
            let y = prev[x].unwrap().link().src as int;
            assert(y < n);
        } else {
            assert(e.link().src == u);
        }
    }
}

/// Every walk from `s` of at most `t` edges weighs at least the distance of its end.
spec fn bounded_by_walks(adj: Seq<Seq<Link>>, s: int, dist: Seq<Option<i64>>, t: int) -> bool {
    forall|v: int, p: Seq<(int, int)>|
        #[trigger] is_walk(adj, s, v, p) && p.len() <= t ==> dist[v] is Some && dist[v].unwrap() <= walk_weight(adj, p)
}

/// The same for walks of at most `t + 1` edges whose last edge has been
/// relaxed in the current pass (lists before `i`, or the first `k` of list `i`).
spec fn bounded_by_relaxed(adj: Seq<Seq<Link>>, s: int, dist: Seq<Option<i64>>, t: int, i: int, k: int) -> bool {
    forall|v: int, p: Seq<(int, int)>|
        #[trigger] is_walk(adj, s, v, p) && 0 < p.len() <= t + 1 && (p.last().0 < i || (p.last().0 == i && p.last().1
            < k)) ==> dist[v] is Some && dist[v].unwrap() <= walk_weight(adj, p)
}

/// `d2` is `d1` with no distance raised.
spec fn no_higher(d1: Seq<Option<i64>>, d2: Seq<Option<i64>>) -> bool {
    &&& d2.len() == d1.len()
    &&& forall|v: int| 0 <= v < d1.len() && (#[trigger] d1[v]) is Some ==> d2[v] is Some && d2[v].unwrap() <= d1[v].unwrap()
}

#[verifier::rlimit(100)]
proof fn lemma_bf_step(
    adj: Seq<Seq<Link>>,
    s: int,
    d1: Seq<Option<i64>>,
    d2: Seq<Option<i64>>,
    t: int,
    i: int,
    k: int,
)
    requires
        adj_wf(adj),
        d1.len() == adj.len(),
        0 <= s < adj.len(),
        0 <= i < adj.len(),
        0 <= k < adj[i].len(),
        bounded_by_walks(adj, s, d1, t),
        bounded_by_relaxed(adj, s, d1, t, i, k),
        no_higher(d1, d2),
        d1[i] is Some ==> d2[adj[i][k].dst as int] is Some && d2[adj[i][k].dst as int].unwrap() <= d1[i].unwrap()
            + adj[i][k].weight,
    ensures
        bounded_by_walks(adj, s, d2, t),
        bounded_by_relaxed(adj, s, d2, t, i, k + 1),
{
    assert forall|v: int, p: Seq<(int, int)>|
        #[trigger] is_walk(adj, s, v, p) && p.len() <= t implies d2[v] is Some && d2[v].unwrap() <= walk_weight(adj, p) by {
        if p.len() > 0 {
            lemma_walk_drop_last(adj, s, v, p);
            assert(adj[p.last().0][p.last().1] == step_link(adj, p.last()));
        }
        assert(0 <= v < d1.len());
        assert(d1[v] is Some);
    }
    assert forall|v: int, p: Seq<(int, int)>|
        #[trigger] is_walk(adj, s, v, p) && 0 < p.len() <= t + 1 && (p.last().0 < i || (p.last().0 == i && p.last().1
            < k + 1)) implies d2[v] is Some && d2[v].unwrap() <= walk_weight(adj, p) by {
        lemma_walk_drop_last(adj, s, v, p);
        assert(adj[p.last().0][p.last().1] == step_link(adj, p.last()));
        assert(0 <= v < d1.len());
        if p.last().0 == i && p.last().1 == k {
            let q = p.drop_last();
            assert(is_walk(adj, s, i, q));
            assert(d1[i] is Some);
        } else {
            assert(d1[v] is Some);
        }
    }
}

proof fn lemma_bf_next_list(adj: Seq<Seq<Link>>, s: int, d: Seq<Option<i64>>, t: int, i: int)
    requires
        0 <= i < adj.len(),
        bounded_by_relaxed(adj, s, d, t, i, adj[i].len() as int),
    ensures
        bounded_by_relaxed(adj, s, d, t, i + 1, 0),
{
    assert forall|v: int, p: Seq<(int, int)>|
        #[trigger] is_walk(adj, s, v, p) && 0 < p.len() <= t + 1 && (p.last().0 < i + 1 || (p.last().0 == i + 1
            && p.last().1 < 0)) implies d[v] is Some && d[v].unwrap() <= walk_weight(adj, p) by {
        lemma_walk_drop_last(adj, s, v, p);
    }
}

proof fn lemma_bf_next_pass(adj: Seq<Seq<Link>>, s: int, d: Seq<Option<i64>>, t: int)
    requires
        t >= 0,
        adj_wf(adj),
        bounded_by_walks(adj, s, d, t),
        bounded_by_relaxed(adj, s, d, t, adj.len() as int, 0),
    ensures
        bounded_by_walks(adj, s, d, t + 1),
{
    assert forall|v: int, p: Seq<(int, int)>|
        #[trigger] is_walk(adj, s, v, p) && p.len() <= t + 1 implies d[v] is Some && d[v].unwrap() <= walk_weight(adj, p) by {
        if p.len() == t + 1 {
            lemma_walk_drop_last(adj, s, v, p);
            assert(p.last().0 < adj.len());
        }
    }
}

/// Without a reachable negative cycle, after `n - 1` passes every edge
/// leaving a node of finite distance is satisfied.
proof fn lemma_bf_settled<T: Edge>(
    adj: Seq<Seq<Link>>,
    s: int,
    dist: Seq<Option<i64>>,
    prev: Seq<Option<&T>>,
    wit: Seq<Seq<(int, int)>>,
    found: Set<int>,
    u: int,
    k: int,
)
    requires
        bf_inv(adj, s, dist, prev, wit, found),
        bounded_by_walks(adj, s, dist, adj.len() - 1),
        !neg_cycle_reachable(adj, s),
        0 <= u < adj.len(),
        0 <= k < adj[u].len(),
        dist[u] is Some,
    ensures
        dist[adj[u][k].dst as int] is Some,
        dist[adj[u][k].dst as int].unwrap() <= dist[u].unwrap() + adj[u][k].weight,
{
    let st = (u, k);
    assert(step_link(adj, st) == adj[u][k]);
    lemma_walk_push(adj, s, u, wit[u], st);
    let q = lemma_short_walk(adj, s, adj[u][k].dst as int, wit[u].push(st));
}

/// Without a reachable negative cycle, no relaxation falls below the floor.
proof fn lemma_bf_above_floor<T: Edge>(
    adj: Seq<Seq<Link>>,
    s: int,
    dist: Seq<Option<i64>>,
    prev: Seq<Option<&T>>,
    wit: Seq<Seq<(int, int)>>,
    found: Set<int>,
    u: int,
    k: int,
)
    requires
        bf_inv(adj, s, dist, prev, wit, found),
        !neg_cycle_reachable(adj, s),
        0 <= u < adj.len(),
        0 <= k < adj[u].len(),
        dist[u] is Some,
    ensures
        dist[u].unwrap() + adj[u][k].weight >= bf_floor(adj.len() as int),
{
    let st = (u, k);
    assert(step_link(adj, st) == adj[u][k]);
    lemma_walk_push(adj, s, u, wit[u], st);
    let q = lemma_short_walk(adj, s, adj[u][k].dst as int, wit[u].push(st));
    lemma_walk_weight_lower(adj, s, adj[u][k].dst as int, q);
    let n = adj.len() as int;
    assert(q.len() * (max_weight() + 1) <= (n - 1) * (max_weight() + 1)) by (nonlinear_arith)
        requires q.len() <= n - 1;
}

/// A result that every edge satisfies leaves no negative cycle reachable.
proof fn lemma_closed_no_neg_cycle(adj: Seq<Seq<Link>>, s: int, dist: Seq<Option<i64>>)
    requires
        adj_wf(adj),
        0 <= s < adj.len(),
        dist.len() == adj.len(),
        dist[s] is Some,
        forall|u: int, k: int|
            0 <= u < adj.len() && 0 <= k < adj[u].len() && dist[u] is Some ==> {
                let l = #[trigger] adj[u][k];
                &&& dist[l.dst as int] is Some
                &&& dist[l.dst as int].unwrap() <= dist[u].unwrap() + l.weight
            },
    ensures
        !neg_cycle_reachable(adj, s),
{
    let n = adj.len() as int;
    let dist_opt = Seq::new(n as nat, |v: int| if dist[v] is Some { Some(dist[v].unwrap() as int) } else { None });
    if neg_cycle_reachable(adj, s) {
        let (x, p, c) = choose|x: int, p: Seq<(int, int)>, c: Seq<(int, int)>|
            #[trigger] is_walk(adj, s, x, p) && #[trigger] is_walk(adj, x, x, c) && walk_weight(adj, c) < 0;
        assert forall|u: int, k: int|
            0 <= u < adj.len() && 0 <= k < adj[u].len() && dist_opt[u] is Some implies {
                let l = #[trigger] adj[u][k];
                &&& 0 <= l.dst < adj.len()
                &&& dist_opt[l.dst as int] is Some
                &&& dist_opt[l.dst as int].unwrap() <= dist_opt[u].unwrap() + l.weight as int
            } by {
        }
        lemma_closed_bounds_walks(adj, dist_opt, false, s, x, p);
        lemma_closed_bounds_walks(adj, dist_opt, false, x, x, c);
    }
}

/// After the passes: every edge leaving a node of finite distance is
/// satisfied, so the distances are the weights of lightest walks.
proof fn lemma_bf_done<T: Edge>(
    adj: Seq<Seq<Link>>,
    s: int,
    dist: Seq<Option<i64>>,
    prev: Seq<Option<&T>>,
    wit: Seq<Seq<(int, int)>>,
    found: Set<int>,
)
    requires
        bf_inv(adj, s, dist, prev, wit, found),
        forall|u: int, k: int|
            0 <= u < adj.len() && 0 <= k < adj[u].len() && dist[u] is Some ==> {
                let l = #[trigger] adj[u][k];
                &&& dist[l.dst as int] is Some
                &&& dist[l.dst as int].unwrap() <= dist[u].unwrap() + l.weight
            },
    ensures
        is_sp_tree(adj, s, prev, dist),
{
    let n = adj.len() as int;
    let dist_opt = Seq::new(n as nat, |v: int| if dist[v] is Some { Some(dist[v].unwrap() as int) } else { None });
    assert forall|u: int, k: int|
        0 <= u < adj.len() && 0 <= k < adj[u].len() && dist_opt[u] is Some implies {
            let l = #[trigger] adj[u][k];
            &&& 0 <= l.dst < adj.len()
            &&& dist_opt[l.dst as int] is Some
            &&& dist_opt[l.dst as int].unwrap() <= dist_opt[u].unwrap() + l.weight as int
        } by {
    }
    lemma_closed_bounds_walks(adj, dist_opt, false, s, s, wit[s]);
    assert(dist[s].unwrap() == 0);
    assert forall|v: int| 0 <= v < n implies ((#[trigger] dist[v]) is Some <==> reachable(adj, s, v)) && (dist[v] is Some
        ==> is_shortest(adj, s, v, dist[v].unwrap() as int)) by {
        if dist[v] is Some {
            assert(is_walk(adj, s, v, wit[v]));
            assert forall|p: Seq<(int, int)>| #[trigger] is_walk(adj, s, v, p) implies dist[v].unwrap() <= walk_weight(adj, p) by {
                lemma_closed_bounds_walks(adj, dist_opt, false, s, v, p);
            }
        } else if reachable(adj, s, v) {
            let p = choose|p: Seq<(int, int)>| #[trigger] is_walk(adj, s, v, p);
            lemma_closed_bounds_walks(adj, dist_opt, false, s, v, p);
        }
    }
    assert forall|v: int|
        0 <= v < n && v != s && dist[v] is Some implies {
            &&& (#[trigger] prev[v]) is Some
            &&& prev[v].unwrap().link().dst == v
            &&& stored(adj, prev[v].unwrap().link())
            &&& dist[prev[v].unwrap().link().src as int] is Some
            &&& dist[prev[v].unwrap().link().src as int].unwrap() + prev[v].unwrap().link().weight == dist[v].unwrap()
        } by {
        let l = prev[v].unwrap().link();
        let kk = choose|kk: int| 0 <= kk < adj[l.src as int].len() && #[trigger] adj[l.src as int][kk] == l;
        assert(adj[l.src as int][kk] == l);
    }
}


impl<T: Edge> Graph<T> {
    /// Bellman-Ford from `source`: `n - 1` passes that relax every edge, then
    /// one more scan. `None` exactly when a cycle of negative weight can be
    /// reached from `source`: the scan then still finds an edge to relax, or
    /// a distance falls below `-(n * (2^31 - 1))`, which no walk without a
    /// repeated node can weigh.
    #[verifier::rlimit(100)]
    pub fn bellman_ford(&self, source: usize) -> (r: Option<(Vec<Option<&T>>, Vec<Option<i64>>)>)
        requires
            self.wf(),
            source < self.node_count(),
        ensures
            r is Some <==> !neg_cycle_reachable(self.adj(), source as int),
            r matches Some(t) ==> is_sp_tree(self.adj(), source as int, t.0@, t.1@),
    {
        let n = self.n_nodes;
        let ghost adj = self.adj();
        let mut distances: Vec<Option<i64>> = Vec::new();
        let mut prev_edge: Vec<Option<&T>> = Vec::new();
        let mut i: usize = 0;
        while i < n
            invariant
                i <= n,
                distances@.len() == i,
                prev_edge@.len() == i,
                forall|v: int| 0 <= v < i ==> #[trigger] distances@[v] is None,
                forall|v: int| 0 <= v < i ==> (#[trigger] prev_edge@[v]) is None,
            decreases n - i,
        {
            distances.push(None);
            prev_edge.push(None);
            i = i + 1;
        }
        distances.set(source, Some(0));
        let floor: i64 = -((n as i64) * 0x7fff_ffff);
        let ghost mut wit: Seq<Seq<(int, int)>> = Seq::new(n as nat, |v: int| Seq::<(int, int)>::empty());
        let ghost mut found: Set<int> = set![source as int];
        proof {
            lemma_int_range(0, n as int);
            assert(is_walk(adj, source as int, source as int, wit[source as int]));
            assert(found.len() == 1);
            assert(bf_inv(adj, source as int, distances@, prev_edge@, wit, found));
            assert forall|v: int, p: Seq<(int, int)>|
                #[trigger] is_walk(adj, source as int, v, p) && p.len() <= 0 implies distances@[v] is Some
                && distances@[v].unwrap() <= walk_weight(adj, p) by {
            }
        }
        let mut pass: usize = 1;
        while pass < n
            invariant
                self.wf(),
                adj == self.adj(),
                n == self.node_count(),
                floor == bf_floor(n as int),
                1 <= pass <= n,
                bf_inv(adj, source as int, distances@, prev_edge@, wit, found),
                bounded_by_walks(adj, source as int, distances@, pass - 1),
            decreases n - pass,
        {
            let ghost t = pass - 1;
            let mut i: usize = 0;
            proof {
                assert forall|v: int, p: Seq<(int, int)>|
                    #[trigger] is_walk(adj, source as int, v, p) && 0 < p.len() <= t + 1 && (p.last().0 < 0 || (p.last().0 == 0
                        && p.last().1 < 0)) implies distances@[v] is Some && distances@[v].unwrap() <= walk_weight(adj, p) by {
                    assert(valid_step(adj, p[p.len() - 1]));
                }
            }
            while i < n
                invariant
                    self.wf(),
                    adj == self.adj(),
                    n == self.node_count(),
                    floor == bf_floor(n as int),
                    1 <= pass < n,
                    t == pass - 1,
                    i <= n,
                    bf_inv(adj, source as int, distances@, prev_edge@, wit, found),
                    bounded_by_walks(adj, source as int, distances@, t),
                    bounded_by_relaxed(adj, source as int, distances@, t, i as int, 0),
                decreases n - i,
            {
                let list = &self.edges[i];
                let len = list.len();
                let mut k: usize = 0;
                while k < len
                    invariant
                        self.wf(),
                        adj == self.adj(),
                        n == self.node_count(),
                        i < n,
                        k <= len,
                        floor == bf_floor(n as int),
                        list@ == self.edges@[i as int]@,
                        len == adj[i as int].len(),
                        bf_inv(adj, source as int, distances@, prev_edge@, wit, found),
                        t == pass - 1,
                        1 <= pass < n,
                        bounded_by_walks(adj, source as int, distances@, t),
                        bounded_by_relaxed(adj, source as int, distances@, t, i as int, k as int),
                    decreases len - k,
                {
                    let ghost d1 = distances@;
                    let edge = &list[k];
                    let dst = edge.destination();
                    proof {
                        assert(adj[i as int][k as int] == edge.link());
                        lemma_len_subset(found, set_int_range(0, n as int));
                    }
                    if let Some(du) = distances[i] {
                        let nd = du + edge.weight() as i64;
                        let better = match distances[dst] {
                            None => true,
                            Some(dv) => dv > nd,
                        };
                        if better {
                            if nd < floor {
                                proof {
                                    if !neg_cycle_reachable(adj, source as int) {
                                        lemma_bf_above_floor(adj, source as int, distances@, prev_edge@, wit, found, i as int, k as int);
                                    }
                                }
                                return None;
                            }
                            proof {
                                lemma_bf_relax(adj, source as int, distances@, prev_edge@, wit, found, i as int, k as int, edge, nd);
                                wit = wit.update(dst as int, wit[i as int].push((i as int, k as int)));
                                found = found.insert(dst as int);
                            }
                            distances.set(dst, Some(nd));
                            prev_edge.set(dst, Some(edge));
                        }
                    }
                    proof {
                        lemma_bf_step(adj, source as int, d1, distances@, t, i as int, k as int);
                    }
                    k = k + 1;
                }
                proof {
                    lemma_bf_next_list(adj, source as int, distances@, t, i as int);
                }
                i = i + 1;
            }
            proof {
                lemma_bf_next_pass(adj, source as int, distances@, t);
            }
            pass = pass + 1;
        }
        let mut i: usize = 0;
        while i < n
            invariant
                self.wf(),
                adj == self.adj(),
                n == self.node_count(),
                i <= n,
                bf_inv(adj, source as int, distances@, prev_edge@, wit, found),
                bounded_by_walks(adj, source as int, distances@, n - 1),
                forall|u: int, k: int|
                    0 <= u < i && 0 <= k < adj[u].len() && distances@[u] is Some ==> {
                        let l = #[trigger] adj[u][k];
                        &&& distances@[l.dst as int] is Some
                        &&& distances@[l.dst as int].unwrap() <= distances@[u].unwrap() + l.weight
                    },
            decreases n - i,
        {
            let list = &self.edges[i];
            let len = list.len();
            let mut k: usize = 0;
            while k < len
                invariant
                    self.wf(),
                    adj == self.adj(),
                    n == self.node_count(),
                    i < n,
                    k <= len,
                    list@ == self.edges@[i as int]@,
                    len == adj[i as int].len(),
                    bf_inv(adj, source as int, distances@, prev_edge@, wit, found),
                    bounded_by_walks(adj, source as int, distances@, n - 1),
                    forall|u: int, j: int|
                        0 <= u < i && 0 <= j < adj[u].len() && distances@[u] is Some ==> {
                            let l = #[trigger] adj[u][j];
                            &&& distances@[l.dst as int] is Some
                            &&& distances@[l.dst as int].unwrap() <= distances@[u].unwrap() + l.weight
                        },
                    forall|j: int|
                        0 <= j < k && distances@[i as int] is Some ==> {
                            let l = #[trigger] adj[i as int][j];
                            &&& distances@[l.dst as int] is Some
                            &&& distances@[l.dst as int].unwrap() <= distances@[i as int].unwrap() + l.weight
                        },
                decreases len - k,
            {
                let edge = &list[k];
                let dst = edge.destination();
                proof {
                    assert(adj[i as int][k as int] == edge.link());
                    lemma_len_subset(found, set_int_range(0, n as int));
                }
                if let Some(du) = distances[i] {
                    let nd = du + edge.weight() as i64;
                    match distances[dst] {
                        None => {
                            proof {
                                if !neg_cycle_reachable(adj, source as int) {
                                    lemma_bf_settled(adj, source as int, distances@, prev_edge@, wit, found, i as int, k as int);
                                }
                            }
                            return None;
                        },
                        Some(dv) => {
                            if dv > nd {
                                proof {
                                    if !neg_cycle_reachable(adj, source as int) {
                                        lemma_bf_settled(adj, source as int, distances@, prev_edge@, wit, found, i as int, k as int);
                                    }
                                }
                                return None;
                            }
                        },
                    }
                }
                k = k + 1;
            }
            i = i + 1;
        }
        proof {
            lemma_bf_done(adj, source as int, distances@, prev_edge@, wit, found);
            lemma_closed_no_neg_cycle(adj, source as int, distances@);
        }
        Some((prev_edge, distances))
    }
}


/// Every stored edge weighs 1.
pub open spec fn unit_weights(adj: Seq<Seq<Link>>) -> bool {
    forall|u: int, k: int| 0 <= u < adj.len() && 0 <= k < adj[u].len() ==> (#[trigger] adj[u][k]).weight == 1
}

proof fn lemma_unit_walk_weight(adj: Seq<Seq<Link>>, p: Seq<(int, int)>)
    requires
        unit_weights(adj),
        forall|i: int| 0 <= i < p.len() ==> valid_step(adj, #[trigger] p[i]),
    ensures
        walk_weight(adj, p) == p.len(),
    decreases p.len(),
{
    if p.len() > 0 {
        let q = p.drop_last();
        assert forall|i: int| 0 <= i < q.len() implies valid_step(adj, #[trigger] q[i]) by {
            assert(q[i] == p[i]);
        }
        lemma_unit_walk_weight(adj, q);
        assert(valid_step(adj, p[p.len() - 1]));
        assert(adj[p.last().0][p.last().1].weight == 1);
    }
}

/// When every edge weighs 1, breadth-first distances and Dijkstra's
/// distances agree: the same nodes are unreachable, and the others are at
/// the same distance.
pub proof fn lemma_bfs_matches_dijkstra<T: Edge>(
    adj: Seq<Seq<Link>>,
    s: int,
    bprev: Seq<Option<&T>>,
    bdist: Seq<i64>,
    dprev: Seq<Option<&T>>,
    ddist: Seq<Option<i64>>,
)
    requires
        unit_weights(adj),
        is_bfs_tree(adj, s, bprev, bdist),
        is_sp_tree(adj, s, dprev, ddist),
    ensures
        forall|v: int|
            0 <= v < adj.len() ==> (#[trigger] bdist[v] == -1 <==> ddist[v] is None) && (ddist[v] is Some
                ==> ddist[v].unwrap() == bdist[v]),
{
    assert forall|v: int| 0 <= v < adj.len() implies (#[trigger] bdist[v] == -1 <==> ddist[v] is None) && (ddist[v] is Some
        ==> ddist[v].unwrap() == bdist[v]) by {
        if ddist[v] is Some {
            assert(reachable(adj, s, v));
            assert(bdist[v] >= 0);
            assert(is_fewest_hops(adj, s, v, bdist[v] as int));
            assert(is_shortest(adj, s, v, ddist[v].unwrap() as int));
            let p1 = choose|p: Seq<(int, int)>| #[trigger] is_walk(adj, s, v, p) && p.len() == bdist[v];
            let p2 = choose|p: Seq<(int, int)>| #[trigger] is_walk(adj, s, v, p) && walk_weight(adj, p) == ddist[v].unwrap();
            lemma_unit_walk_weight(adj, p1);
            lemma_unit_walk_weight(adj, p2);
        } else {
            assert(!reachable(adj, s, v));
        }
    }
}

/// Two shortest-path trees from the same source agree on every distance;
/// so Dijkstra and Bellman-Ford, where both return one, give the same
/// distances.
pub proof fn lemma_sp_trees_agree<T: Edge>(
    adj: Seq<Seq<Link>>,
    s: int,
    prev1: Seq<Option<&T>>,
    dist1: Seq<Option<i64>>,
    prev2: Seq<Option<&T>>,
    dist2: Seq<Option<i64>>,
)
    requires
        is_sp_tree(adj, s, prev1, dist1),
        is_sp_tree(adj, s, prev2, dist2),
    ensures
        dist1 == dist2,
{
    assert forall|v: int| 0 <= v < adj.len() implies #[trigger] dist1[v] == dist2[v] by {
        if dist1[v] is Some {
            assert(reachable(adj, s, v));
            let p1 = choose|p: Seq<(int, int)>| #[trigger] is_walk(adj, s, v, p) && walk_weight(adj, p) == dist1[v].unwrap();
            let p2 = choose|p: Seq<(int, int)>| #[trigger] is_walk(adj, s, v, p) && walk_weight(adj, p) == dist2[v].unwrap();
        } else {
            assert(!reachable(adj, s, v));
        }
    }
    assert(dist1 =~= dist2);
}


/// The largest magnitude an all-pairs distance may take.
pub open spec fn fw_bound() -> int {
    0x2000_0000_0000_0000
}

/// Some walk from `i` to `j` weighs `d`.
pub open spec fn has_walk_of_weight(adj: Seq<Seq<Link>>, i: int, j: int, d: int) -> bool {
    exists|p: Seq<(int, int)>| #[trigger] is_walk(adj, i, j, p) && walk_weight(adj, p) == d
}

/// An all-pairs result over `n` nodes: every finite entry `d[i][j]` is the
/// weight of a walk from `i` to `j`, and every recorded edge ends at its
/// column and leads into a finite entry.
pub open spec fn is_sound_matrix<T: Edge>(adj: Seq<Seq<Link>>, prevs: Seq<Vec<Option<&T>>>, dists: Seq<Vec<Option<i64>>>) -> bool {
    let n = adj.len() as int;
    &&& dists.len() == n
    &&& prevs.len() == n
    &&& forall|i: int| 0 <= i < n ==> (#[trigger] dists[i])@.len() == n && prevs[i]@.len() == n
    &&& forall|i: int, j: int|
        0 <= i < n && 0 <= j < n && (#[trigger] dists[i]@[j]) is Some ==> has_walk_of_weight(adj, i, j, dists[i]@[j].unwrap() as int)
    &&& forall|i: int, j: int|
        0 <= i < n && 0 <= j < n && (#[trigger] prevs[i]@[j]) is Some ==> {
            &&& prevs[i]@[j].unwrap().link().dst == j
            &&& stored(adj, prevs[i]@[j].unwrap().link())
            &&& dists[i]@[j] is Some
        }
}

spec fn fw_inv<T: Edge>(
    adj: Seq<Seq<Link>>,
    prevs: Seq<Vec<Option<&T>>>,
    dists: Seq<Vec<Option<i64>>>,
    wit: Seq<Seq<Seq<(int, int)>>>,
) -> bool {
    let n = adj.len() as int;
    &&& adj_wf(adj)
    &&& dists.len() == n
    &&& prevs.len() == n
    &&& wit.len() == n
    &&& forall|i: int| 0 <= i < n ==> (#[trigger] dists[i])@.len() == n && prevs[i]@.len() == n && wit[i].len() == n
    &&& forall|i: int, j: int|
        0 <= i < n && 0 <= j < n && (#[trigger] dists[i]@[j]) is Some ==> {
            &&& -fw_bound() <= dists[i]@[j].unwrap() <= fw_bound()
            &&& is_walk(adj, i, j, wit[i][j])
            &&& walk_weight(adj, wit[i][j]) == dists[i]@[j].unwrap()
        }
    &&& forall|i: int, j: int|
        0 <= i < n && 0 <= j < n && (#[trigger] prevs[i]@[j]) is Some ==> {
            &&& prevs[i]@[j].unwrap().link().dst == j
            &&& stored(adj, prevs[i]@[j].unwrap().link())
            &&& dists[i]@[j] is Some
        }
}

proof fn lemma_fw_sound<T: Edge>(
    adj: Seq<Seq<Link>>,
    prevs: Seq<Vec<Option<&T>>>,
    dists: Seq<Vec<Option<i64>>>,
    wit: Seq<Seq<Seq<(int, int)>>>,
)
    requires
        fw_inv(adj, prevs, dists, wit),
    ensures
        is_sound_matrix(adj, prevs, dists),
{
    let n = adj.len() as int;
    assert forall|i: int, j: int|
        0 <= i < n && 0 <= j < n && (#[trigger] dists[i]@[j]) is Some implies has_walk_of_weight(adj, i, j, dists[i]@[j].unwrap() as int) by {
        assert(is_walk(adj, i, j, wit[i][j]));
        assert(walk_weight(adj, wit[i][j]) == dists[i]@[j].unwrap());
    }
    assert forall|i: int| 0 <= i < n implies (#[trigger] dists[i])@.len() == n && prevs[i]@.len() == n by {
        assert(dists[i]@.len() == n);
    }
    assert forall|i: int, j: int|
        0 <= i < n && 0 <= j < n && (#[trigger] prevs[i]@[j]) is Some implies {
            &&& prevs[i]@[j].unwrap().link().dst == j
            &&& stored(adj, prevs[i]@[j].unwrap().link())
            &&& dists[i]@[j] is Some
        } by {
    }
}

/// No cycle of negative weight can be reached from any node.
pub open spec fn no_negative_cycle(adj: Seq<Seq<Link>>) -> bool {
    forall|x: int| 0 <= x < adj.len() ==> !#[trigger] neg_cycle_reachable(adj, x)
}

/// No two stored edges join the same ordered pair of nodes.
pub open spec fn no_parallel_edges(adj: Seq<Seq<Link>>) -> bool {
    forall|u: int, a: int, b: int|
        0 <= u < adj.len() && 0 <= a < b < adj[u].len() ==> (#[trigger] adj[u][a]).dst != (#[trigger] adj[u][b]).dst
}

/// The entry `(x, y)` after the round through `k`, computed from the matrix
/// `od` of the round before.
spec fn fw_next(od: Seq<Vec<Option<i64>>>, k: int, x: int, y: int) -> Option<i64> {
    if y != k && od[x]@[k] is Some && od[k]@[y] is Some {
        let c = od[x]@[k].unwrap() + od[k]@[y].unwrap();
        if (od[x]@[y] is None || od[x]@[y].unwrap() > c) && -fw_bound() <= c <= fw_bound() {
            Some(c as i64)
        } else {
            od[x]@[y]
        }
    } else {
        od[x]@[y]
    }
}

/// Entries that are weights of walks, and a zero diagonal.
spec fn fw_entries(adj: Seq<Seq<Link>>, d: Seq<Vec<Option<i64>>>, w: Seq<Seq<Seq<(int, int)>>>) -> bool {
    let n = adj.len() as int;
    &&& d.len() == n
    &&& w.len() == n
    &&& forall|x: int| 0 <= x < n ==> (#[trigger] d[x])@.len() == n && w[x].len() == n
    &&& forall|x: int, y: int|
        0 <= x < n && 0 <= y < n && (#[trigger] d[x]@[y]) is Some ==> is_walk(adj, x, y, w[x][y]) && walk_weight(adj, w[x][y])
            == d[x]@[y].unwrap()
}

proof fn lemma_closed_nonneg(adj: Seq<Seq<Link>>, x: int, c: Seq<(int, int)>)
    requires
        !neg_cycle_reachable(adj, x),
        is_walk(adj, x, x, c),
    ensures
        walk_weight(adj, c) >= 0,
{
    let e = Seq::<(int, int)>::empty();
    assert(is_walk(adj, x, x, e));
    if walk_weight(adj, c) < 0 {
        assert(is_walk(adj, x, x, e) && is_walk(adj, x, x, c));
    }
}

/// The first matrix is exact for walks with no node inside: the empty walk
/// and single edges.
proof fn lemma_fw_init(adj: Seq<Seq<Link>>, d: Seq<Vec<Option<i64>>>)
    requires
        adj_wf(adj),
        no_negative_cycle(adj),
        no_parallel_edges(adj),
        d.len() == adj.len(),
        forall|x: int| 0 <= x < adj.len() ==> (#[trigger] d[x])@.len() == adj.len() && d[x]@[x] == Some(0i64),
        forall|x: int, j: int|
            0 <= x < adj.len() && 0 <= j < adj[x].len() && (#[trigger] adj[x][j]).dst != x ==> d[x]@[adj[x][j].dst as int]
                == Some(adj[x][j].weight as i64),
    ensures
        fw_exact(adj, d, 0),
{
    assert forall|x: int, y: int, p: Seq<(int, int)>|
        0 <= x < adj.len() && #[trigger] is_walk(adj, x, y, p) && #[trigger] inner_lt(p, 0) implies d[x]@[y] is Some
        && d[x]@[y].unwrap() <= walk_weight(adj, p) by {
        if p.len() >= 2 {
            assert(valid_step(adj, p[1]));
            assert(p[1].0 < 0);
        }
        if p.len() == 1 {
            let st = p[0];
            assert(valid_step(adj, st));
            assert(adj[x][st.1] == step_link(adj, st));
            assert(walk_weight(adj, p) == walk_weight(adj, p.drop_last()) + adj[x][st.1].weight);
            assert(p.drop_last().len() == 0);
            if y == x {
                lemma_closed_nonneg(adj, x, p);
            }
        }
    }
}

/// After a round through `k`, the matrix is exact for walks whose inside
/// nodes are at most `k`, and the diagonal stays zero.
#[verifier::rlimit(100)]
proof fn lemma_fw_step(adj: Seq<Seq<Link>>, od: Seq<Vec<Option<i64>>>, ow: Seq<Seq<Seq<(int, int)>>>, nd: Seq<Vec<Option<i64>>>, k: int)
    requires
        adj_wf(adj),
        adj.len() <= 0x3fff_fff0,
        0 <= k < adj.len(),
        no_negative_cycle(adj),
        fw_exact(adj, od, k),
        fw_entries(adj, od, ow),
        forall|x: int| 0 <= x < adj.len() ==> (#[trigger] od[x])@[x] == Some(0i64),
        nd.len() == adj.len(),
        forall|x: int| 0 <= x < adj.len() ==> (#[trigger] nd[x])@.len() == adj.len(),
        forall|x: int, y: int| 0 <= x < adj.len() && 0 <= y < adj.len() ==> #[trigger] nd[x]@[y] == fw_next(od, k, x, y),
    ensures
        fw_exact(adj, nd, k + 1),
        forall|x: int| 0 <= x < adj.len() ==> (#[trigger] nd[x])@[x] == Some(0i64),
{
    let n = adj.len() as int;
    assert forall|x: int| 0 <= x < n implies (#[trigger] nd[x])@[x] == Some(0i64) by {
        assert(nd[x]@[x] == fw_next(od, k, x, x));
        if x != k && od[x]@[k] is Some && od[k]@[x] is Some {
            lemma_walk_concat(adj, x, k, x, ow[x][k], ow[k][x]);
            lemma_closed_nonneg(adj, x, ow[x][k] + ow[k][x]);
        }
    }
    assert forall|x: int, y: int, p: Seq<(int, int)>|
        0 <= x < n && #[trigger] is_walk(adj, x, y, p) && #[trigger] inner_lt(p, k + 1) implies nd[x]@[y] is Some
        && nd[x]@[y].unwrap() <= walk_weight(adj, p) by {
        assert(!neg_cycle_reachable(adj, x));
        let q = lemma_short_walk(adj, x, y, p);
        assert(inner_lt(q, k + 1));
        lemma_walk_weight_upper(adj, x, y, q);
        assert(q.len() * max_weight() <= (n - 1) * max_weight()) by (nonlinear_arith)
            requires q.len() <= n - 1;
        if q.len() > 0 {
            lemma_walk_drop_last(adj, x, y, q);
        }
        assert(0 <= y < n);
        assert(nd[x]@[y] == fw_next(od, k, x, y));
        lemma_fw_core(adj, od, k, x, y, q);
        if od[x]@[y] is Some && od[x]@[y].unwrap() <= walk_weight(adj, q) {
        } else {
            if y != k {
                let a = od[x]@[k].unwrap();
                let b = od[k]@[y].unwrap();
                lemma_walk_concat(adj, x, k, y, ow[x][k], ow[k][y]);
                let r = lemma_short_walk(adj, x, y, ow[x][k] + ow[k][y]);
                lemma_walk_weight_lower(adj, x, y, r);
                assert(r.len() * (max_weight() + 1) <= (n - 1) * (max_weight() + 1)) by (nonlinear_arith)
                    requires r.len() <= n - 1;
            } else {
                assert(od[k]@[k] == Some(0i64));
            }
        }
    }
}

/// At the end every walk is allowed, so the entries are least walk weights.
proof fn lemma_fw_final(adj: Seq<Seq<Link>>, d: Seq<Vec<Option<i64>>>, w: Seq<Seq<Seq<(int, int)>>>)
    requires
        adj_wf(adj),
        fw_exact(adj, d, adj.len() as int),
        fw_entries(adj, d, w),
    ensures
        forall|i: int, j: int|
            0 <= i < adj.len() && 0 <= j < adj.len() ==> (#[trigger] d[i]@[j] is Some <==> reachable(adj, i, j)),
        forall|i: int, j: int|
            0 <= i < adj.len() && 0 <= j < adj.len() && (#[trigger] d[i]@[j]) is Some ==> is_shortest(
                adj,
                i,
                j,
                d[i]@[j].unwrap() as int,
            ),
{
    let n = adj.len() as int;
    assert forall|p: Seq<(int, int)>, x: int, y: int| #[trigger] is_walk(adj, x, y, p) implies inner_lt(p, n) by {
        assert forall|t: int| 0 < t < p.len() implies #[trigger] p[t].0 < n by {
            assert(valid_step(adj, p[t]));
        }
    }
    assert forall|i: int, j: int| 0 <= i < n && 0 <= j < n implies (#[trigger] d[i]@[j] is Some <==> reachable(adj, i, j)) && (
    d[i]@[j] is Some ==> is_shortest(adj, i, j, d[i]@[j].unwrap() as int)) by {
        if d[i]@[j] is Some {
            assert(is_walk(adj, i, j, w[i][j]));
            assert forall|p: Seq<(int, int)>| #[trigger] is_walk(adj, i, j, p) implies d[i]@[j].unwrap() <= walk_weight(adj, p) by {
                assert(inner_lt(p, n));
            }
        } else if reachable(adj, i, j) {
            let p = choose|p: Seq<(int, int)>| #[trigger] is_walk(adj, i, j, p);
            assert(inner_lt(p, n));
        }
    }
}

proof fn lemma_fw_inv_entries<T: Edge>(
    adj: Seq<Seq<Link>>,
    prevs: Seq<Vec<Option<&T>>>,
    dists: Seq<Vec<Option<i64>>>,
    wit: Seq<Seq<Seq<(int, int)>>>,
)
    requires
        fw_inv(adj, prevs, dists, wit),
    ensures
        fw_entries(adj, dists, wit),
{
}

proof fn lemma_fw_diag(adj: Seq<Seq<Link>>, od: Seq<Vec<Option<i64>>>, ow: Seq<Seq<Seq<(int, int)>>>, nd: Seq<Vec<Option<i64>>>, k: int)
    requires
        adj_wf(adj),
        0 <= k < adj.len(),
        no_negative_cycle(adj),
        fw_entries(adj, od, ow),
        forall|x: int| 0 <= x < adj.len() ==> (#[trigger] od[x])@[x] == Some(0i64),
        forall|x: int, y: int| 0 <= x < adj.len() && 0 <= y < adj.len() ==> #[trigger] nd[x]@[y] == fw_next(od, k, x, y),
    ensures
        forall|x: int| 0 <= x < adj.len() ==> (#[trigger] nd[x])@[x] == Some(0i64),
{
    assert forall|x: int| 0 <= x < adj.len() implies (#[trigger] nd[x])@[x] == Some(0i64) by {
        assert(nd[x]@[x] == fw_next(od, k, x, x));
        if x != k && od[x]@[k] is Some && od[k]@[x] is Some {
            lemma_walk_concat(adj, x, k, x, ow[x][k], ow[k][x]);
            lemma_closed_nonneg(adj, x, ow[x][k] + ow[k][x]);
        }
    }
}

#[verifier::rlimit(100)]
proof fn lemma_fw_set<T: Edge>(
    adj: Seq<Seq<Link>>,
    op: Seq<Vec<Option<&T>>>,
    od: Seq<Vec<Option<i64>>>,
    ow: Seq<Seq<Seq<(int, int)>>>,
    pm: Seq<Vec<Option<&T>>>,
    dm: Seq<Vec<Option<i64>>>,
    wm: Seq<Seq<Seq<(int, int)>>>,
    pn: Seq<Vec<Option<&T>>>,
    dn: Seq<Vec<Option<i64>>>,
    wn: Seq<Seq<Seq<(int, int)>>>,
    i: int,
    j: int,
    k: int,
    c: i64,
    pk: Option<&T>,
)
    requires
        fw_inv(adj, op, od, ow),
        fw_inv(adj, pm, dm, wm),
        0 <= i < adj.len(),
        0 <= j < adj.len(),
        0 <= k < adj.len(),
        od[i]@[k] is Some,
        od[k]@[j] is Some,
        c == od[i]@[k].unwrap() + od[k]@[j].unwrap(),
        -fw_bound() <= c <= fw_bound(),
        pk == op[k]@[j],
        dn.len() == adj.len(),
        pn.len() == adj.len(),
        forall|x: int| 0 <= x < adj.len() ==> (#[trigger] dn[x])@.len() == adj.len() && pn[x]@.len() == adj.len(),
        forall|x: int, y: int|
            0 <= x < adj.len() && 0 <= y < adj.len() ==> #[trigger] dn[x]@[y] == if x == i && y == j {
                Some(c)
            } else {
                dm[x]@[y]
            },
        forall|x: int, y: int|
            0 <= x < adj.len() && 0 <= y < adj.len() ==> #[trigger] pn[x]@[y] == if x == i && y == j {
                pk
            } else {
                pm[x]@[y]
            },
        wn == wm.update(i, wm[i].update(j, ow[i][k] + ow[k][j])),
    ensures
        fw_inv(adj, pn, dn, wn),
{
    let n = adj.len() as int;
    assert forall|x: int| 0 <= x < n implies (#[trigger] dn[x])@.len() == n && pn[x]@.len() == n && wn[x].len() == n by {
        assert(dm[x]@.len() == n);
        assert(dn[x]@.len() == n && pn[x]@.len() == n);
        if x == i {
            assert(wm[i].len() == n);
            assert(wn[x].len() == n);
        } else {
            assert(wn[x] == wm[x]);
            assert(wm[x].len() == n);
        }
    }
    lemma_walk_concat(adj, i, k, j, ow[i][k], ow[k][j]);
    assert forall|x: int, y: int|
        0 <= x < n && 0 <= y < n && (#[trigger] dn[x]@[y]) is Some implies {
            &&& -fw_bound() <= dn[x]@[y].unwrap() <= fw_bound()
            &&& is_walk(adj, x, y, wn[x][y])
            &&& walk_weight(adj, wn[x][y]) == dn[x]@[y].unwrap()
        } by {
        if x != i || y != j {
            assert(dn[x]@[y] == dm[x]@[y]);
            assert(wn[x][y] == wm[x][y]);
        }
    }
    assert forall|x: int, y: int|
        0 <= x < n && 0 <= y < n && (#[trigger] pn[x]@[y]) is Some implies {
            &&& pn[x]@[y].unwrap().link().dst == y
            &&& stored(adj, pn[x]@[y].unwrap().link())
            &&& dn[x]@[y] is Some
        } by {
        if x != i || y != j {
            assert(dn[x]@[y] == dm[x]@[y]);
            assert(pn[x]@[y] == pm[x]@[y]);
        }
    }
}

/// A copy of a matrix of plain values.
fn snapshot<X: Copy>(m: &Vec<Vec<X>>) -> (r: Vec<Vec<X>>)
    ensures
        r@.len() == m@.len(),
        forall|i: int| 0 <= i < m@.len() ==> (#[trigger] r@[i])@ == m@[i]@,
{
    let mut r: Vec<Vec<X>> = Vec::new();
    let mut i: usize = 0;
    while i < m.len()
        invariant
            i <= m@.len(),
            r@.len() == i,
            forall|x: int| 0 <= x < i ==> (#[trigger] r@[x])@ == m@[x]@,
        decreases m@.len() - i,
    {
        let row = &m[i];
        let mut copy: Vec<X> = Vec::new();
        let mut j: usize = 0;
        while j < row.len()
            invariant
                j <= row@.len(),
                copy@ == row@.subrange(0, j as int),
            decreases row@.len() - j,
        {
            copy.push(row[j]);
            j = j + 1;
            proof {
                assert(copy@ =~= row@.subrange(0, j as int));
            }
        }
        proof {
            assert(copy@ =~= row@);
        }
        r.push(copy);
        i = i + 1;
    }
    r
}

impl<T: Edge> Graph<T> {
    /// One round of Floyd-Warshall through node `k`, reading only the matrix
    /// of the round before.
    #[verifier::rlimit(100)]
    fn fw_round<'a>(
        &'a self,
        dists: &mut Vec<Vec<Option<i64>>>,
        prevs: &mut Vec<Vec<Option<&'a T>>>,
        k: usize,
        wit0: Ghost<Seq<Seq<Seq<(int, int)>>>>,
    ) -> (w2: Ghost<Seq<Seq<Seq<(int, int)>>>>)
        requires
            self.wf(),
            k < self.node_count(),
            fw_inv(self.adj(), old(prevs)@, old(dists)@, wit0@),
            no_negative_cycle(self.adj()) ==> forall|x: int|
                0 <= x < self.node_count() ==> (#[trigger] old(dists)@[x])@[x] == Some(0i64) && old(prevs)@[x]@[x] is None,
        ensures
            fw_inv(self.adj(), final(prevs)@, final(dists)@, w2@),
            final(dists)@.len() == old(dists)@.len(),
            forall|x: int, y: int|
                0 <= x < self.node_count() && 0 <= y < self.node_count() ==> #[trigger] final(dists)@[x]@[y] == fw_next(
                    old(dists)@,
                    k as int,
                    x,
                    y,
                ),
            no_negative_cycle(self.adj()) ==> forall|x: int|
                0 <= x < self.node_count() ==> (#[trigger] final(prevs)@[x])@[x] is None,
    {
        let n = self.n_nodes;
        let ghost adj = self.adj();
        let ghost mut wit = wit0@;
            let old_d = snapshot(dists);
            let old_p = snapshot(prevs);
            let ghost od = dists@;
            let ghost op = prevs@;
            let ghost ow = wit;
            let ghost hnc = no_negative_cycle(adj);
            let mut i: usize = 0;
            while i < n
                invariant
                    self.wf(),
                    adj == self.adj(),
                    n == self.node_count(),
                    k < n,
                    old_d@.len() == n,
                    old_p@.len() == n,
                    forall|x: int| 0 <= x < n ==> (#[trigger] old_d@[x])@ == od[x]@,
                    forall|x: int| 0 <= x < n ==> (#[trigger] old_p@[x])@ == op[x]@,
                    fw_inv(adj, op, od, ow),
                    fw_inv(adj, prevs@, dists@, wit),
                    i <= n,
                    dists@.len() == n,
                    forall|x: int, y: int| 0 <= x < i && 0 <= y < n ==> #[trigger] dists@[x]@[y] == fw_next(od, k as int, x, y),
                    forall|x: int, y: int| i <= x < n && 0 <= y < n ==> #[trigger] dists@[x]@[y] == od[x]@[y],
                    hnc == no_negative_cycle(adj),
                    hnc ==> forall|x: int| 0 <= x < n ==> (#[trigger] od[x])@[x] == Some(0i64),
                    hnc ==> forall|x: int| 0 <= x < n ==> (#[trigger] prevs@[x])@[x] is None,
                decreases n - i,
            {
                let mut j: usize = 0;
                while j < n
                    invariant
                        self.wf(),
                        adj == self.adj(),
                        n == self.node_count(),
                        k < n,
                        i < n,
                        old_d@.len() == n,
                        old_p@.len() == n,
                        forall|x: int| 0 <= x < n ==> (#[trigger] old_d@[x])@ == od[x]@,
                        forall|x: int| 0 <= x < n ==> (#[trigger] old_p@[x])@ == op[x]@,
                        fw_inv(adj, op, od, ow),
                        fw_inv(adj, prevs@, dists@, wit),
                            j <= n,
                        dists@.len() == n,
                        forall|x: int, y: int| 0 <= x < i && 0 <= y < n ==> #[trigger] dists@[x]@[y] == fw_next(od, k as int, x, y),
                        forall|y: int| 0 <= y < j ==> #[trigger] dists@[i as int]@[y] == fw_next(od, k as int, i as int, y),
                        forall|x: int, y: int| (i < x < n || (x == i && j <= y)) && 0 <= y < n ==> #[trigger] dists@[x]@[y] == od[x]@[y],
                        hnc == no_negative_cycle(adj),
                        hnc ==> forall|x: int| 0 <= x < n ==> (#[trigger] od[x])@[x] == Some(0i64),
                        hnc ==> forall|x: int| 0 <= x < n ==> (#[trigger] prevs@[x])@[x] is None,
                    decreases n - j,
                {
                    let ghost dm0 = dists@;
                    let ghost pm0 = prevs@;
                    if j != k {
                        if let Some(a) = old_d[i][k] {
                            if let Some(b) = old_d[k][j] {
                                let cand = a + b;
                                let better = match old_d[i][j] {
                                    None => true,
                                    Some(c) => c > cand,
                                };
                                if better && -0x2000_0000_0000_0000 <= cand && cand <= 0x2000_0000_0000_0000 {
                                    let pk = old_p[k][j];
                                    let ghost pm = prevs@;
                                    let ghost dm = dists@;
                                    proof {
                                        assert(dists@[i as int]@.len() == n);
                                        assert(prevs@[i as int]@.len() == n);
                                        assert(od[i as int]@[k as int] == Some(a));
                                        assert(dists@[i as int]@[j as int] == od[i as int]@[j as int]);
                                        if hnc && i == j {
                                            lemma_walk_concat(adj, i as int, k as int, j as int, ow[i as int][k as int], ow[k as int][j as int]);
                                            assert(!neg_cycle_reachable(adj, i as int));
                                            lemma_closed_nonneg(adj, i as int, ow[i as int][k as int] + ow[k as int][j as int]);
                                        }
                                        assert(od[k as int]@[j as int] == Some(b));
                                        lemma_walk_concat(adj, i as int, k as int, j as int, ow[i as int][k as int], ow[k as int][j as int]);
                                    }
                                    dists[i].set(j, Some(cand));
                                    prevs[i].set(j, pk);
                                    proof {
                                        let wm = wit;
                                        wit = wit.update(i as int, wit[i as int].update(j as int, ow[i as int][k as int] + ow[k as int][j as int]));
                                        assert forall|x: int, y: int| 0 <= x < n && 0 <= y < n implies #[trigger] dists@[x]@[y]
                                            == if x == i && y == j { Some(cand) } else { dm[x]@[y] } by {
                                            if x != i {
                                                assert(dists@[x] == dm[x]);
                                            }
                                        }
                                        assert forall|x: int, y: int| 0 <= x < n && 0 <= y < n implies #[trigger] prevs@[x]@[y]
                                            == if x == i && y == j { pk } else { pm[x]@[y] } by {
                                            if x != i {
                                                assert(prevs@[x] == pm[x]);
                                            }
                                        }
                                        assert forall|x: int| 0 <= x < n implies (#[trigger] dists@[x])@.len() == n && prevs@[x]@.len() == n by {
                                            if x != i {
                                                assert(dists@[x] == dm[x]);
                                                assert(prevs@[x] == pm[x]);
                                            }
                                        }
                                        assert(op[k as int]@[j as int] == pk);
                                        lemma_fw_set(adj, op, od, ow, pm, dm, wm, prevs@, dists@, wit, i as int, j as int, k as int, cand, pk);
                                    }
                                }
                            }
                        }
                    }
                    proof {
                        assert(dists@[i as int]@[j as int] == fw_next(od, k as int, i as int, j as int));
                        assert forall|x: int, y: int| 0 <= x < n && 0 <= y < n && !(x == i && y == j) implies #[trigger] dists@[x]@[y] == dm0[x]@[y] by {
                            if x != i {
                                assert(dists@[x] == dm0[x]);
                            }
                        }
                        assert forall|x: int| 0 <= x < n && hnc implies (#[trigger] prevs@[x])@[x] is None by {
                            if x != i {
                                assert(prevs@[x] == pm0[x]);
                            } else if j != i {
                                assert(prevs@[x]@[x] == pm0[x]@[x]);
                            }
                        }
                    }
                    j = j + 1;
                }
                i = i + 1;
            }
        proof {
            assert forall|x: int, y: int| 0 <= x < n && 0 <= y < n implies #[trigger] dists@[x]@[y] == fw_next(od, k as int, x, y) by {
            }
        }
        Ghost(wit)
    }

    /// Floyd-Warshall over all pairs: the distance matrix and, for each pair,
    /// the last edge of the walk found. The diagonal starts at 0 and every
    /// stored edge between two distinct nodes then writes its weight into its
    /// entry (the last of parallel edges wins; a self-loop leaves the 0). Each
    /// round through node `k` reads only the matrix of the round before. No
    /// negative cycle is detected; a sum beyond 2^61 in magnitude, which only
    /// a negative cycle can produce, is not stored. Without negative cycles
    /// the diagonal stays 0 and, without parallel edges, every entry is the
    /// least weight of a walk (`None`: no walk).
    #[verifier::rlimit(100)]
    pub fn floyd_warshall(&self) -> (r: (Vec<Vec<Option<&T>>>, Vec<Vec<Option<i64>>>))
        requires
            self.wf(),
        ensures
            is_sound_matrix(self.adj(), r.0@, r.1@),
            forall|i: int| 0 <= i < self.adj().len() ==> (#[trigger] r.1@[i])@[i] is Some,
            forall|u: int, k: int|
                0 <= u < self.adj().len() && 0 <= k < self.adj()[u].len() ==> (r.1@[u])@[(
                #[trigger] self.adj()[u][k]).dst as int] is Some,
            no_negative_cycle(self.adj()) ==> forall|i: int|
                0 <= i < self.adj().len() ==> (#[trigger] r.1@[i])@[i] == Some(0i64) && r.0@[i]@[i] is None,
            no_negative_cycle(self.adj()) && no_parallel_edges(self.adj()) ==> forall|i: int, j: int|
                0 <= i < self.adj().len() && 0 <= j < self.adj().len() ==> (#[trigger] r.1@[i]@[j] is Some <==> reachable(
                    self.adj(),
                    i,
                    j,
                )),
            no_negative_cycle(self.adj()) && no_parallel_edges(self.adj()) ==> forall|i: int, j: int|
                0 <= i < self.adj().len() && 0 <= j < self.adj().len() && (#[trigger] r.1@[i]@[j]) is Some ==> is_shortest(
                    self.adj(),
                    i,
                    j,
                    r.1@[i]@[j].unwrap() as int,
                ),
    {
        let n = self.n_nodes;
        let ghost adj = self.adj();
        let mut dists: Vec<Vec<Option<i64>>> = Vec::new();
        let mut prevs: Vec<Vec<Option<&T>>> = Vec::new();
        let mut i: usize = 0;
        while i < n
            invariant
                i <= n,
                dists@.len() == i,
                prevs@.len() == i,
                forall|x: int| 0 <= x < i ==> (#[trigger] dists@[x])@.len() == n && prevs@[x]@.len() == n,
                forall|x: int, y: int| 0 <= x < i && 0 <= y < n ==> (#[trigger] dists@[x]@[y]) is None,
                forall|x: int, y: int| 0 <= x < i && 0 <= y < n ==> (#[trigger] prevs@[x]@[y]) is None,
            decreases n - i,
        {
            let mut drow: Vec<Option<i64>> = Vec::new();
            let mut prow: Vec<Option<&T>> = Vec::new();
            let mut j: usize = 0;
            while j < n
                invariant
                    j <= n,
                    drow@.len() == j,
                    prow@.len() == j,
                    forall|y: int| 0 <= y < j ==> (#[trigger] drow@[y]) is None,
                    forall|y: int| 0 <= y < j ==> (#[trigger] prow@[y]) is None,
                decreases n - j,
            {
                drow.push(None);
                prow.push(None);
                j = j + 1;
            }
            dists.push(drow);
            prevs.push(prow);
            i = i + 1;
        }
        let ghost mut wit: Seq<Seq<Seq<(int, int)>>> = Seq::new(n as nat, |i: int| Seq::new(n as nat, |j: int| Seq::<(int, int)>::empty()));
        let mut i: usize = 0;
        while i < n
            invariant
                self.wf(),
                adj == self.adj(),
                n == self.node_count(),
                i <= n,
                fw_inv(adj, prevs@, dists@, wit),
                forall|x: int| 0 <= x < i ==> (#[trigger] dists@[x])@[x] == Some(0i64),
                forall|x: int| 0 <= x < n ==> (#[trigger] prevs@[x])@[x] is None,
                forall|x: int, k: int| 0 <= x < i && 0 <= k < adj[x].len() ==> (dists@[x])@[(#[trigger] adj[x][k]).dst as int] is Some,
                no_parallel_edges(adj) ==> forall|x: int, k: int|
                    0 <= x < i && 0 <= k < adj[x].len() && (#[trigger] adj[x][k]).dst != x ==> dists@[x]@[adj[x][k].dst as int]
                        == Some(adj[x][k].weight as i64),
            decreases n - i,
        {
            let ghost d0 = dists@;
            proof {
                assert(dists@[i as int]@.len() == n);
            }
            dists[i].set(i, Some(0));
            proof {
                wit = wit.update(i as int, wit[i as int].update(i as int, Seq::<(int, int)>::empty()));
                assert(is_walk(adj, i as int, i as int, Seq::<(int, int)>::empty()));
                assert forall|x: int, y: int|
                    0 <= x < n && 0 <= y < n && (#[trigger] dists@[x]@[y]) is Some implies {
                        &&& -fw_bound() <= dists@[x]@[y].unwrap() <= fw_bound()
                        &&& is_walk(adj, x, y, wit[x][y])
                        &&& walk_weight(adj, wit[x][y]) == dists@[x]@[y].unwrap()
                    } by {
                    if x != i || y != i {
                        assert(dists@[x]@[y] == d0[x]@[y]);
                    }
                }
                assert forall|x: int, y: int|
                    0 <= x < n && 0 <= y < n && (#[trigger] prevs@[x]@[y]) is Some implies dists@[x]@[y] is Some by {
                    if x != i || y != i {
                        assert(dists@[x]@[y] == d0[x]@[y]);
                    }
                }
                assert forall|x: int| 0 <= x < n implies (#[trigger] dists@[x])@.len() == n && prevs@[x]@.len() == n && wit[x].len() == n by {
                    assert(dists@[x]@.len() == n);
                }
                assert(fw_inv(adj, prevs@, dists@, wit));
            }
            let list = &self.edges[i];
            let len = list.len();
            let mut k: usize = 0;
            while k < len
                invariant
                    self.wf(),
                    adj == self.adj(),
                    n == self.node_count(),
                    i < n,
                    list@ == self.edges@[i as int]@,
                    len == adj[i as int].len(),
                    fw_inv(adj, prevs@, dists@, wit),
                    forall|x: int| 0 <= x <= i ==> (#[trigger] dists@[x])@[x] == Some(0i64),
                    forall|x: int| 0 <= x < n ==> (#[trigger] prevs@[x])@[x] is None,
                    no_parallel_edges(adj) ==> forall|x: int, j: int|
                        0 <= x < i && 0 <= j < adj[x].len() && (#[trigger] adj[x][j]).dst != x ==> dists@[x]@[adj[x][j].dst as int]
                            == Some(adj[x][j].weight as i64),
                    no_parallel_edges(adj) ==> forall|j: int|
                        0 <= j < k && (#[trigger] adj[i as int][j]).dst != i ==> dists@[i as int]@[adj[i as int][j].dst as int]
                            == Some(adj[i as int][j].weight as i64),
                    forall|x: int, j: int| 0 <= x < i && 0 <= j < adj[x].len() ==> (dists@[x])@[(#[trigger] adj[x][j]).dst as int] is Some,
                    forall|j: int| 0 <= j < k ==> (dists@[i as int])@[(#[trigger] adj[i as int][j]).dst as int] is Some,
                decreases len - k,
            {
                let edge = &list[k];
                let dst = edge.destination();
                let w = edge.weight();
                let ghost pm = prevs@;
                let ghost dm = dists@;
                proof {
                    assert(dists@[i as int]@.len() == n);
                    assert(prevs@[i as int]@.len() == n);
                    assert(adj[i as int][k as int] == edge.link());
                    assert(stored(adj, edge.link()));
                    let st = (i as int, k as int);
                    assert(step_link(adj, st) == adj[i as int][k as int]);
                    lemma_walk_push(adj, i as int, i as int, Seq::<(int, int)>::empty(), st);
                    assert(Seq::<(int, int)>::empty().push(st) =~= seq![st]);
                    assert(walk_weight(adj, Seq::<(int, int)>::empty()) == 0);
                }
                if dst != i {
                    prevs[i].set(dst, Some(edge));
                    dists[i].set(dst, Some(w as i64));
                    proof {
                        let st = (i as int, k as int);
                        wit = wit.update(i as int, wit[i as int].update(dst as int, seq![st]));
                        assert forall|x: int, y: int|
                            0 <= x < n && 0 <= y < n && (#[trigger] dists@[x]@[y]) is Some implies {
                                &&& -fw_bound() <= dists@[x]@[y].unwrap() <= fw_bound()
                                &&& is_walk(adj, x, y, wit[x][y])
                                &&& walk_weight(adj, wit[x][y]) == dists@[x]@[y].unwrap()
                            } by {
                            if x != i || y != dst {
                                assert(dists@[x]@[y] == dm[x]@[y]);
                            }
                        }
                        assert forall|x: int, y: int|
                            0 <= x < n && 0 <= y < n && (#[trigger] prevs@[x]@[y]) is Some implies {
                                &&& prevs@[x]@[y].unwrap().link().dst == y
                                &&& stored(adj, prevs@[x]@[y].unwrap().link())
                                &&& dists@[x]@[y] is Some
                            } by {
                            if x != i || y != dst {
                                assert(dists@[x]@[y] == dm[x]@[y]);
                                assert(prevs@[x]@[y] == pm[x]@[y]);
                            }
                        }
                        assert forall|x: int| 0 <= x < n implies (#[trigger] dists@[x])@.len() == n && prevs@[x]@.len() == n && wit[x].len() == n by {
                            assert(dists@[x]@.len() == n);
                        }
                        assert(fw_inv(adj, prevs@, dists@, wit));
                    }
                    proof {
                        assert forall|x: int| 0 <= x < n implies (#[trigger] prevs@[x])@[x] is None by {
                            if x != i {
                                assert(prevs@[x] == pm[x]);
                            }
                        }
                        assert forall|x: int| 0 <= x <= i implies (#[trigger] dists@[x])@[x] == Some(0i64) by {
                            if x != i {
                                assert(dists@[x] == dm[x]);
                            }
                        }
                        if no_parallel_edges(adj) {
                            assert forall|j: int|
                                0 <= j < k + 1 && (#[trigger] adj[i as int][j]).dst != i implies dists@[i as int]@[adj[i as int][j].dst as int]
                                    == Some(adj[i as int][j].weight as i64) by {
                                if j < k {
                                    assert(adj[i as int][j].dst != adj[i as int][k as int].dst);
                                }
                            }
                            assert forall|x: int, j: int|
                                0 <= x < i && 0 <= j < adj[x].len() && (#[trigger] adj[x][j]).dst != x implies dists@[x]@[adj[x][j].dst as int]
                                    == Some(adj[x][j].weight as i64) by {
                                assert(dists@[x] == dm[x]);
                            }
                        }
                    }
                }
                k = k + 1;
            }
            i = i + 1;
        }
        proof {
            if no_negative_cycle(adj) && no_parallel_edges(adj) {
                lemma_fw_init(adj, dists@);
            }
        }
        let mut k: usize = 0;
        while k < n
            invariant
                self.wf(),
                adj == self.adj(),
                n == self.node_count(),
                k <= n,
                fw_inv(adj, prevs@, dists@, wit),
                forall|x: int| 0 <= x < n ==> (#[trigger] dists@[x])@[x] is Some,
                forall|x: int, j: int| 0 <= x < n && 0 <= j < adj[x].len() ==> (dists@[x])@[(#[trigger] adj[x][j]).dst as int] is Some,
                no_negative_cycle(adj) ==> forall|x: int| 0 <= x < n ==> (#[trigger] dists@[x])@[x] == Some(0i64) && prevs@[x]@[x] is None,
                no_negative_cycle(adj) && no_parallel_edges(adj) ==> fw_exact(adj, dists@, k as int),
            decreases n - k,
        {
            let ghost od = dists@;
            let ghost op = prevs@;
            let ghost ow = wit;
            let w2 = self.fw_round(&mut dists, &mut prevs, k, Ghost(wit));
            proof {
                wit = w2@;
                lemma_fw_inv_entries(adj, op, od, ow);
                if no_negative_cycle(adj) {
                    lemma_fw_diag(adj, od, ow, dists@, k as int);
                    if no_parallel_edges(adj) {
                        lemma_fw_step(adj, od, ow, dists@, k as int);
                    }
                }
                assert forall|x: int| 0 <= x < n implies (#[trigger] dists@[x])@[x] is Some by {
                    assert(dists@[x]@[x] == fw_next(od, k as int, x, x));
                }
                assert forall|x: int, j: int| 0 <= x < n && 0 <= j < adj[x].len() implies (dists@[x])@[(#[trigger] adj[x][j]).dst as int] is Some by {
                    assert(adj[x][j].dst < n);
                    assert(dists@[x]@[adj[x][j].dst as int] == fw_next(od, k as int, x, adj[x][j].dst as int));
                }
            }
            k = k + 1;
        }
        proof {
            lemma_fw_sound(adj, prevs@, dists@, wit);
            lemma_fw_inv_entries(adj, prevs@, dists@, wit);
            if no_negative_cycle(adj) && no_parallel_edges(adj) {
                lemma_fw_final(adj, dists@, wit);
            }
        }
        (prevs, dists)
    }
}


proof fn lemma_nonneg_walk(adj: Seq<Seq<Link>>, s: int, v: int, p: Seq<(int, int)>)
    requires
        no_negative_edge(adj),
        is_walk(adj, s, v, p),
    ensures
        walk_weight(adj, p) >= 0,
    decreases p.len(),
{
    if p.len() > 0 {
        lemma_walk_drop_last(adj, s, v, p);
        lemma_nonneg_walk(adj, s, p.last().0, p.drop_last());
        assert(adj[p.last().0][p.last().1] == step_link(adj, p.last()));
    }
}

/// A graph without negative edges has no negative cycle, so Bellman-Ford
/// returns a result on it; with [`lemma_sp_trees_agree`], that result has
/// the distances Dijkstra's algorithm returns.
pub proof fn lemma_no_negative_edge_no_cycle(adj: Seq<Seq<Link>>, s: int)
    requires
        no_negative_edge(adj),
    ensures
        !neg_cycle_reachable(adj, s),
{
    if neg_cycle_reachable(adj, s) {
        let (x, p, c) = choose|x: int, p: Seq<(int, int)>, c: Seq<(int, int)>|
            #[trigger] is_walk(adj, s, x, p) && #[trigger] is_walk(adj, x, x, c) && walk_weight(adj, c) < 0;
        lemma_nonneg_walk(adj, x, x, c);
    }
}

} // verus!
