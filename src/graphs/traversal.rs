use vstd::prelude::*;
use vstd::set_lib::{lemma_int_range, lemma_len_subset, set_int_range};
use super::{
    Edge, Graph, Link, is_walk, is_fewest_hops, reachable, lemma_walk_push,
    lemma_closed_bounds_walks, step_link, valid_step,
};
use crate::fifo::{queue_add, queue_items, queue_new, queue_remove, queue_size};

verus! {

#[derive(PartialEq, Eq, Structural, Clone, Copy)]
enum Color {
    White,
    Grey,
    Black,
}

/// `l` is stored in the adjacency list of its source.
pub open spec fn stored(adj: Seq<Seq<Link>>, l: Link) -> bool {
    &&& l.src < adj.len()
    &&& exists|k: int| 0 <= k < adj[l.src as int].len() && #[trigger] adj[l.src as int][k] == l
}

/// What a breadth-first search from `s` returns: for each node, the edge it
/// was reached by and its distance in edges, `-1` where no walk leads.
pub open spec fn is_bfs_tree<T: Edge>(adj: Seq<Seq<Link>>, s: int, prev: Seq<Option<&T>>, dist: Seq<i64>) -> bool {
    &&& prev.len() == adj.len()
    &&& dist.len() == adj.len()
    &&& forall|v: int| 0 <= v < adj.len() ==> (#[trigger] dist[v] >= 0 <==> reachable(adj, s, v))
    &&& forall|v: int| 0 <= v < adj.len() && dist[v] < 0 ==> #[trigger] dist[v] == -1 && prev[v] is None
    &&& forall|v: int| 0 <= v < adj.len() && dist[v] >= 0 ==> is_fewest_hops(adj, s, v, #[trigger] dist[v] as int)
    &&& prev[s] is None
    &&& forall|v: int|
        0 <= v < adj.len() && v != s && dist[v] >= 0 ==> {
            &&& (#[trigger] prev[v]) is Some
            &&& prev[v].unwrap().link().dst == v
            &&& stored(adj, prev[v].unwrap().link())
            &&& dist[prev[v].unwrap().link().src as int] + 1 == dist[v]
        }
}

/// What a breadth-first search from `s` knows of each node: its color,
/// distance, a walk of that length, and the edge it was reached by.
spec fn bfs_nodes<T: Edge>(
    adj: Seq<Seq<Link>>,
    s: int,
    colors: Seq<Color>,
    dist: Seq<i64>,
    prev: Seq<Option<&T>>,
    wit: Seq<Seq<(int, int)>>,
    seen: Set<int>,
    cur: int,
) -> bool {
    let n = adj.len() as int;
    &&& 0 <= s < n
    &&& n <= 0xffff_ffff
    &&& colors.len() == n
    &&& dist.len() == n
    &&& prev.len() == n
    &&& wit.len() == n
    &&& set_int_range(0, n).finite()
    &&& set_int_range(0, n).len() == n
    &&& seen.finite()
    &&& seen.subset_of(set_int_range(0, n))
    &&& forall|v: int| 0 <= v < n ==> (seen.contains(v) <==> #[trigger] colors[v] != Color::White)
    &&& forall|v: int| 0 <= v < n ==> (#[trigger] colors[v] == Color::White <==> dist[v] == -1)
    &&& forall|v: int| 0 <= v < n && colors[v] != Color::White ==> 0 <= #[trigger] dist[v] < seen.len()
    &&& forall|v: int| 0 <= v < n && colors[v] != Color::White ==> #[trigger] dist[v] <= cur + 1
    &&& forall|v: int|
        0 <= v < n && colors[v] != Color::White ==> is_walk(adj, s, v, #[trigger] wit[v]) && wit[v].len()
            == dist[v]
    &&& colors[s] != Color::White
    &&& dist[s] == 0
    &&& prev[s] is None
    &&& forall|v: int| 0 <= v < n && colors[v] == Color::White ==> (#[trigger] prev[v]) is None
    &&& forall|v: int|
        0 <= v < n && v != s && colors[v] != Color::White ==> {
            &&& (#[trigger] prev[v]) is Some
            &&& prev[v].unwrap().link().dst == v
            &&& stored(adj, prev[v].unwrap().link())
            &&& dist[prev[v].unwrap().link().src as int] + 1 == dist[v]
            &&& colors[prev[v].unwrap().link().src as int] != Color::White
        }
}

/// What a breadth-first search from `s` knows of its queue and of the nodes
/// whose edges it has scanned; `u` is the node being scanned (or `-1`), `cur`
/// its distance.
spec fn bfs_queue(
    adj: Seq<Seq<Link>>,
    colors: Seq<Color>,
    dist: Seq<i64>,
    seen: Set<int>,
    blacks: Set<int>,
    q: Seq<usize>,
    cur: int,
    u: int,
) -> bool {
    let n = adj.len() as int;
    &&& colors.len() == n
    &&& dist.len() == n
    &&& blacks.finite()
    &&& blacks.subset_of(seen)
    &&& forall|v: int| 0 <= v < n ==> (blacks.contains(v) <==> #[trigger] colors[v] == Color::Black)
    &&& forall|i: int| 0 <= i < q.len() ==> (#[trigger] q[i]) < n && colors[q[i] as int] == Color::Grey
    &&& forall|i: int, j: int| 0 <= i < j < q.len() ==> #[trigger] q[i] != #[trigger] q[j]
    &&& forall|v: int| 0 <= v < n && v != u && #[trigger] colors[v] == Color::Grey ==> q.contains(v as usize)
    &&& forall|i: int| 0 <= i < q.len() ==> q[i] != u
    &&& forall|i: int| 0 <= i < q.len() ==> cur <= #[trigger] dist[q[i] as int] <= cur + 1
    &&& forall|i: int, j: int| 0 <= i < j < q.len() ==> dist[#[trigger] q[i] as int] <= dist[#[trigger] q[j] as int]
    &&& forall|w: int, j: int|
        0 <= w < n && colors[w] == Color::Black && 0 <= j < adj[w].len() ==> {
            let d = (#[trigger] adj[w][j]).dst as int;
            &&& colors[d] != Color::White
            &&& dist[d] <= dist[w] + 1
        }
}

/// The state of a breadth-first search from `s` between two steps.
spec fn bfs_inv<T: Edge>(
    adj: Seq<Seq<Link>>,
    s: int,
    colors: Seq<Color>,
    dist: Seq<i64>,
    prev: Seq<Option<&T>>,
    wit: Seq<Seq<(int, int)>>,
    seen: Set<int>,
    blacks: Set<int>,
    q: Seq<usize>,
    cur: int,
    u: int,
) -> bool {
    &&& bfs_nodes(adj, s, colors, dist, prev, wit, seen, cur)
    &&& bfs_queue(adj, colors, dist, seen, blacks, q, cur, u)
}

proof fn lemma_bfs_discover_nodes<T: Edge>(
    adj: Seq<Seq<Link>>,
    s: int,
    colors: Seq<Color>,
    dist: Seq<i64>,
    prev: Seq<Option<&T>>,
    wit: Seq<Seq<(int, int)>>,
    seen: Set<int>,
    cur: int,
    u: int,
    k: int,
    e: &T,
)
    requires
        bfs_nodes(adj, s, colors, dist, prev, wit, seen, cur),
        forall|w: int, j: int|
            0 <= w < adj.len() && 0 <= j < adj[w].len() ==> (#[trigger] adj[w][j]).src == w && adj[w][j].dst
                < adj.len(),
        0 <= u < adj.len(),
        colors[u] == Color::Grey,
        dist[u] == cur,
        0 <= k < adj[u].len(),
        e.link() == adj[u][k],
        colors[e.link().dst as int] == Color::White,
    ensures
        ({
            let v = e.link().dst as int;
            bfs_nodes(
                adj,
                s,
                colors.update(v, Color::Grey),
                dist.update(v, (cur + 1) as i64),
                prev.update(v, Some(e)),
                wit.update(v, wit[u].push((u, k))),
                seen.insert(v),
                cur,
            )
        }),
{
    let v = e.link().dst as int;
    let st = (u, k);
    assert(step_link(adj, st) == adj[u][k]);
    lemma_walk_push(adj, s, u, wit[u], st);
    assert(stored(adj, e.link()));
    let colors2 = colors.update(v, Color::Grey);
    let dist2 = dist.update(v, (cur + 1) as i64);
    let seen2 = seen.insert(v);
    assert(!seen.contains(v));
    lemma_len_subset(seen, set_int_range(0, adj.len() as int));
    assert forall|x: int| 0 <= x < adj.len() && colors2[x] != Color::White implies 0 <= #[trigger] dist2[x] < seen2.len() by {
        if x != v {
            assert(colors[x] != Color::White);
        }
    }
    assert forall|x: int| 0 <= x < adj.len() implies (seen2.contains(x) <==> #[trigger] colors2[x] != Color::White) by {}
    lemma_len_subset(seen2, set_int_range(0, adj.len() as int));
    let wit2 = wit.update(v, wit[u].push((u, k)));
    let prev2 = prev.update(v, Some(e));
    assert forall|x: int|
        0 <= x < adj.len() && colors2[x] != Color::White implies is_walk(adj, s, x, #[trigger] wit2[x])
            && wit2[x].len() == dist2[x] by {
        if x != v {
            assert(colors[x] != Color::White);
        }
    }
    assert forall|x: int|
        0 <= x < adj.len() && x != s && colors2[x] != Color::White implies {
            &&& (#[trigger] prev2[x]) is Some
            &&& prev2[x].unwrap().link().dst == x
            &&& stored(adj, prev2[x].unwrap().link())
            &&& dist2[prev2[x].unwrap().link().src as int] + 1 == dist2[x]
            &&& colors2[prev2[x].unwrap().link().src as int] != Color::White
        } by {
        if x != v {
            assert(colors[x] != Color::White);
            assert(prev2[x] == prev[x]);
            let y = prev[x].unwrap().link().src as int;
            assert(colors[y] != Color::White);
            assert(y != v);
            assert(dist2[y] == dist[y]);
            assert(colors2[y] == colors[y]);
        } else {
            assert(u != v);
            assert(e.link().src == u);
            assert(dist2[u] == dist[u]);
            assert(colors2[u] == colors[u]);
        }
    }
}

proof fn lemma_bfs_discover_queue(
    adj: Seq<Seq<Link>>,
    colors: Seq<Color>,
    dist: Seq<i64>,
    seen: Set<int>,
    blacks: Set<int>,
    q: Seq<usize>,
    cur: int,
    u: int,
    v: int,
)
    requires
        bfs_queue(adj, colors, dist, seen, blacks, q, cur, u),
        forall|w: int, j: int|
            0 <= w < adj.len() && 0 <= j < adj[w].len() ==> (#[trigger] adj[w][j]).src == w && adj[w][j].dst
                < adj.len(),
        0 <= u < adj.len(),
        0 <= v < adj.len(),
        colors[u] == Color::Grey,
        colors[v] == Color::White,
        !seen.contains(v),
        0 <= cur < 0xffff_ffff,
        adj.len() <= 0xffff_ffff,
    ensures
        bfs_queue(
            adj,
            colors.update(v, Color::Grey),
            dist.update(v, (cur + 1) as i64),
            seen.insert(v),
            blacks,
            q.push(v as usize),
            cur,
            u,
        ),
{
    let colors2 = colors.update(v, Color::Grey);
    let dist2 = dist.update(v, (cur + 1) as i64);
    let q2 = q.push(v as usize);
    assert(q2[q.len() as int] == v as usize);
    assert(dist2[v] == cur + 1);
    assert forall|w: int| 0 <= w < adj.len() && w != u && #[trigger] colors2[w] == Color::Grey implies q2.contains(w as usize) by {
        if w != v {
            let i = choose|i: int| 0 <= i < q.len() && q[i] == w as usize;
            assert(q2[i] == w as usize);
        } else {
            assert(q2[q.len() as int] == v as usize);
        }
    }
    assert forall|i: int, j: int| 0 <= i < j < q2.len() implies #[trigger] q2[i] != #[trigger] q2[j] by {
        assert(colors[q[i] as int] == Color::Grey);
        if j == q.len() {
            assert(q2[j] == v as usize);
        } else {
            assert(q2[j] == q[j]);
        }
    }
    assert forall|w: int, j: int|
        0 <= w < adj.len() && colors2[w] == Color::Black && 0 <= j < adj[w].len() implies {
            let d = (#[trigger] adj[w][j]).dst as int;
            &&& colors2[d] != Color::White
            &&& dist2[d] <= dist2[w] + 1
        } by {
        assert(colors[w] == Color::Black);
        let d = adj[w][j].dst as int;
        assert(colors[d] != Color::White);
    }
    assert forall|i: int| 0 <= i < q2.len() implies cur <= #[trigger] dist2[q2[i] as int] <= cur + 1 by {
        if i < q.len() {
            assert(q2[i] == q[i]);
            assert(colors[q[i] as int] == Color::Grey);
            assert(q[i] as int != v);
        }
    }
    assert forall|i: int, j: int| 0 <= i < j < q2.len() implies dist2[#[trigger] q2[i] as int] <= dist2[#[trigger] q2[j] as int] by {
        assert(colors[q[i] as int] == Color::Grey);
        if j < q.len() {
            assert(colors[q[j] as int] == Color::Grey);
        }
    }
    assert forall|i: int| 0 <= i < q2.len() implies (#[trigger] q2[i]) < adj.len() && colors2[q2[i] as int] == Color::Grey by {
        if i < q.len() {
            assert(q2[i] == q[i]);
            assert(colors[q[i] as int] == Color::Grey);
        }
    }
}

#[verifier::rlimit(60)]
proof fn lemma_bfs_finish<T: Edge>(
    adj: Seq<Seq<Link>>,
    s: int,
    colors: Seq<Color>,
    dist: Seq<i64>,
    prev: Seq<Option<&T>>,
    wit: Seq<Seq<(int, int)>>,
    seen: Set<int>,
    blacks: Set<int>,
    q: Seq<usize>,
    cur: int,
    u: int,
)
    requires
        bfs_inv(adj, s, colors, dist, prev, wit, seen, blacks, q, cur, u),
        0 <= u < adj.len(),
        colors[u] == Color::Grey,
        dist[u] == cur,
        forall|w: int, j: int|
            0 <= w < adj.len() && 0 <= j < adj[w].len() ==> (#[trigger] adj[w][j]).src == w && adj[w][j].dst
                < adj.len(),
        forall|j: int|
            0 <= j < adj[u].len() ==> {
                let d = (#[trigger] adj[u][j]).dst as int;
                &&& colors[d] != Color::White
                &&& dist[d] <= cur + 1
            },
    ensures
        bfs_inv(adj, s, colors.update(u, Color::Black), dist, prev, wit, seen, blacks.insert(u), q, cur, -1),
        !blacks.contains(u),
{
    let colors2 = colors.update(u, Color::Black);
    assert forall|x: int|
        0 <= x < adj.len() && x != s && colors2[x] != Color::White implies {
            &&& (#[trigger] prev[x]) is Some
            &&& prev[x].unwrap().link().dst == x
            &&& stored(adj, prev[x].unwrap().link())
            &&& dist[prev[x].unwrap().link().src as int] + 1 == dist[x]
            &&& colors2[prev[x].unwrap().link().src as int] != Color::White
        } by {
        assert(colors[x] != Color::White);
    }
    assert forall|w: int, j: int|
        0 <= w < adj.len() && colors2[w] == Color::Black && 0 <= j < adj[w].len() implies {
            let d = (#[trigger] adj[w][j]).dst as int;
            &&& colors2[d] != Color::White
            &&& dist[d] <= dist[w] + 1
        } by {
        if w != u {
            assert(colors[w] == Color::Black);
        }
    }
    assert forall|i: int| 0 <= i < q.len() implies (#[trigger] q[i]) < adj.len() && colors2[q[i] as int] == Color::Grey by {
        assert(q[i] != u);
    }
    assert forall|v: int| 0 <= v < adj.len() && v != -1 && #[trigger] colors2[v] == Color::Grey implies q.contains(v as usize) by {
        assert(colors[v] == Color::Grey);
    }
}

proof fn lemma_bfs_done<T: Edge>(
    adj: Seq<Seq<Link>>,
    s: int,
    colors: Seq<Color>,
    dist: Seq<i64>,
    prev: Seq<Option<&T>>,
    wit: Seq<Seq<(int, int)>>,
    seen: Set<int>,
    blacks: Set<int>,
    q: Seq<usize>,
    cur: int,
)
    requires
        bfs_inv(adj, s, colors, dist, prev, wit, seen, blacks, q, cur, -1),
        q.len() == 0,
        forall|w: int, j: int|
            0 <= w < adj.len() && 0 <= j < adj[w].len() ==> (#[trigger] adj[w][j]).src == w && adj[w][j].dst
                < adj.len(),
    ensures
        is_bfs_tree(adj, s, prev, dist),
{
    let n = adj.len() as int;
    assert forall|v: int| 0 <= v < n && colors[v] != Color::White implies colors[v] == Color::Black by {
        if colors[v] == Color::Grey {
            assert(q.contains(v as usize));
        }
    }
    let dist_opt = Seq::new(n as nat, |v: int| if dist[v] >= 0 { Some(dist[v] as int) } else { None });
    assert forall|u: int, k: int|
        0 <= u < adj.len() && 0 <= k < adj[u].len() && dist_opt[u] is Some implies {
            let l = #[trigger] adj[u][k];
            &&& 0 <= l.dst < adj.len()
            &&& dist_opt[l.dst as int] is Some
            &&& dist_opt[l.dst as int].unwrap() <= dist_opt[u].unwrap() + 1
        } by {
        assert(colors[u] != Color::White);
        assert(colors[u] == Color::Black);
    }
    assert forall|v: int| 0 <= v < n implies (#[trigger] dist[v] >= 0 <==> reachable(adj, s, v)) && (dist[v] >= 0
        ==> is_fewest_hops(adj, s, v, dist[v] as int)) by {
        if dist[v] >= 0 {
            assert(colors[v] != Color::White);
            assert(is_walk(adj, s, v, wit[v]));
            assert forall|p: Seq<(int, int)>| #[trigger] is_walk(adj, s, v, p) implies dist[v] <= p.len() by {
                lemma_closed_bounds_walks(adj, dist_opt, true, s, v, p);
            }
        } else if reachable(adj, s, v) {
            let p = choose|p: Seq<(int, int)>| #[trigger] is_walk(adj, s, v, p);
            lemma_closed_bounds_walks(adj, dist_opt, true, s, v, p);
        }
    }
    assert forall|v: int| 0 <= v < n && dist[v] < 0 implies #[trigger] dist[v] == -1 && prev[v] is None by {
        assert(colors[v] == Color::White);
    }
    assert forall|v: int| 0 <= v < n && v != s && dist[v] >= 0 implies {
        &&& (#[trigger] prev[v]) is Some
        &&& prev[v].unwrap().link().dst == v
        &&& stored(adj, prev[v].unwrap().link())
        &&& dist[prev[v].unwrap().link().src as int] + 1 == dist[v]
    } by {
        assert(colors[v] != Color::White);
    }
}

impl<T: Edge> Graph<T> {
    /// Breadth-first search from `source`: the edge each node was first
    /// reached by, and its distance from `source` in edges (`-1`: unreachable).
    #[verifier::rlimit(100)]
    pub fn bfs(&self, source: usize) -> (r: (Vec<Option<&T>>, Vec<i64>))
        requires
            self.wf(),
            source < self.node_count(),
        ensures
            is_bfs_tree(self.adj(), source as int, r.0@, r.1@),
    {
        let n = self.n_nodes;
        let ghost adj = self.adj();
        let mut colors: Vec<Color> = Vec::new();
        let mut distances: Vec<i64> = Vec::new();
        let mut prev_edge: Vec<Option<&T>> = Vec::new();
        let mut i: usize = 0;
        while i < n
            invariant
                i <= n,
                colors@.len() == i,
                distances@.len() == i,
                prev_edge@.len() == i,
                forall|v: int| 0 <= v < i ==> #[trigger] colors@[v] == Color::White,
                forall|v: int| 0 <= v < i ==> #[trigger] distances@[v] == -1,
                forall|v: int| 0 <= v < i ==> (#[trigger] prev_edge@[v]) is None,
            decreases n - i,
        {
            colors.push(Color::White);
            distances.push(-1);
            prev_edge.push(None);
            i = i + 1;
        }
        let mut queue = queue_new();
        colors.set(source, Color::Grey);
        distances.set(source, 0);
        queue_add(&mut queue, source);
        let ghost mut wit: Seq<Seq<(int, int)>> = Seq::new(n as nat, |v: int| Seq::<(int, int)>::empty());
        let ghost mut seen: Set<int> = set![source as int];
        let ghost mut blacks: Set<int> = Set::empty();
        let ghost mut cur: int = 0;
        proof {
            lemma_int_range(0, n as int);
            assert(is_walk(adj, source as int, source as int, wit[source as int]));
            assert(queue_items(queue) =~= seq![source]);
            assert(queue_items(queue)[0] == source);
            assert(seen.len() == 1);
            assert(bfs_inv(adj, source as int, colors@, distances@, prev_edge@, wit, seen, blacks, queue_items(queue), cur, -1));
        }
        while queue_size(&queue) != 0
            invariant
                self.wf(),
                adj == self.adj(),
                n == self.node_count(),
                adj.len() == n,
                bfs_inv(adj, source as int, colors@, distances@, prev_edge@, wit, seen, blacks, queue_items(queue), cur, -1),
            decreases n - blacks.len(),
        {
            proof {
                lemma_len_subset(blacks, set_int_range(0, n as int));
            }
            let ghost q = queue_items(queue);
            let u = queue_remove(&mut queue);
            proof {
                let q0 = queue_items(queue);
                assert(q0 =~= q.drop_first());
                cur = distances@[u as int] as int;
                assert forall|i: int| 0 <= i < q0.len() implies cur <= #[trigger] distances@[q0[i] as int] <= cur + 1 by {
                    assert(q0[i] == q[i + 1]);
                }
                assert forall|i: int, j: int| 0 <= i < j < q0.len() implies #[trigger] q0[i] != #[trigger] q0[j] by {
                    assert(q0[i] == q[i + 1] && q0[j] == q[j + 1]);
                }
                assert forall|i: int, j: int| 0 <= i < j < q0.len() implies distances@[#[trigger] q0[i] as int] <= distances@[#[trigger] q0[j] as int] by {
                    assert(q0[i] == q[i + 1] && q0[j] == q[j + 1]);
                }
                assert forall|i: int| 0 <= i < q0.len() implies q0[i] != u by {
                    assert(q0[i] == q[i + 1]);
                }
                assert forall|v: int| 0 <= v < n && v != u && #[trigger] colors@[v] == Color::Grey implies q0.contains(v as usize) by {
                    let i = choose|i: int| 0 <= i < q.len() && q[i] == v as usize;
                    assert(q0[i - 1] == v as usize);
                }
                assert(bfs_inv(adj, source as int, colors@, distances@, prev_edge@, wit, seen, blacks, q0, cur, u as int));
            }
            let du = distances[u];
            let adj_u = &self.edges[u];
            let len = adj_u.len();
            let mut k: usize = 0;
            while k < len
                invariant
                    self.wf(),
                    adj == self.adj(),
                    n == self.node_count(),
                    adj.len() == n,
                    u < n,
                    adj_u@ == self.edges@[u as int]@,
                    len == adj[u as int].len(),
                    k <= len,
                    colors@[u as int] == Color::Grey,
                    du == distances@[u as int],
                    cur == du,
                    !blacks.contains(u as int),
                    bfs_inv(adj, source as int, colors@, distances@, prev_edge@, wit, seen, blacks, queue_items(queue), cur, u as int),
                    forall|j: int|
                        0 <= j < k ==> {
                            let d = (#[trigger] adj[u as int][j]).dst as int;
                            &&& colors@[d] != Color::White
                            &&& distances@[d] <= du + 1
                        },
                decreases len - k,
            {
                let edge = &adj_u[k];
                let v = edge.destination();
                proof {
                    assert(adj[u as int][k as int] == edge.link());
                }
                if colors[v] == Color::White {
                    proof {
                        lemma_len_subset(seen, set_int_range(0, n as int));
                        lemma_bfs_discover_nodes(adj, source as int, colors@, distances@, prev_edge@, wit, seen, cur, u as int, k as int, edge);
                        lemma_bfs_discover_queue(adj, colors@, distances@, seen, blacks, queue_items(queue), cur, u as int, v as int);
                        wit = wit.update(v as int, wit[u as int].push((u as int, k as int)));
                        seen = seen.insert(v as int);
                    }
                    colors.set(v, Color::Grey);
                    distances.set(v, du + 1);
                    prev_edge.set(v, Some(edge));
                    queue_add(&mut queue, v);
                }
                proof {
                    assert(colors@[v as int] != Color::White);
                    assert(distances@[v as int] <= du + 1);
                    assert forall|j: int| 0 <= j < k + 1 implies {
                        let d = (#[trigger] adj[u as int][j]).dst as int;
                        &&& colors@[d] != Color::White
                        &&& distances@[d] <= du + 1
                    } by {
                        if j < k {
                        }
                    }
                }
                k = k + 1;
            }
            proof {
                lemma_bfs_finish(adj, source as int, colors@, distances@, prev_edge@, wit, seen, blacks, queue_items(queue), cur, u as int);
            }
            colors.set(u, Color::Black);
            proof {
                blacks = blacks.insert(u as int);
                lemma_len_subset(blacks, set_int_range(0, n as int));
                assert(bfs_inv(adj, source as int, colors@, distances@, prev_edge@, wit, seen, blacks, queue_items(queue), cur, -1));
            }
        }
        proof {
            lemma_bfs_done(adj, source as int, colors@, distances@, prev_edge@, wit, seen, blacks, queue_items(queue), cur);
        }
        (prev_edge, distances)
    }
}


/// How many entries of `cs` are `c`.
spec fn count_color(cs: Seq<Color>, c: Color) -> nat
    decreases cs.len(),
{
    if cs.len() == 0 {
        0
    } else {
        count_color(cs.drop_last(), c) + if cs.last() == c { 1nat } else { 0nat }
    }
}

proof fn lemma_count_update(cs: Seq<Color>, i: int, c: Color, d: Color)
    requires
        0 <= i < cs.len(),
    ensures
        count_color(cs.update(i, d), c) + (if cs[i] == c { 1int } else { 0int }) == count_color(cs, c) + (if d
            == c { 1int } else { 0int }),
    decreases cs.len(),
{
    let t = cs.update(i, d);
    if i < cs.len() - 1 {
        assert(t.drop_last() =~= cs.drop_last().update(i, d));
        lemma_count_update(cs.drop_last(), i, c, d);
    } else {
        assert(t.drop_last() =~= cs.drop_last());
    }
}

proof fn lemma_count_bound(cs: Seq<Color>, c: Color)
    ensures
        count_color(cs, c) <= cs.len(),
    decreases cs.len(),
{
    if cs.len() > 0 {
        lemma_count_bound(cs.drop_last(), c);
    }
}

/// Two time intervals are nested or disjoint.
pub open spec fn nested_or_disjoint(d1: int, f1: int, d2: int, f2: int) -> bool {
    ||| f1 < d2
    ||| f2 < d1
    ||| (d1 < d2 && f2 < f1)
    ||| (d2 < d1 && f1 < f2)
}

/// What a depth-first search over all nodes returns: for each node the tree
/// edge it was reached by, its discover time and its finish time, the times
/// being distinct and in `1..=2n`, with intervals that nest or are disjoint.
pub open spec fn is_dfs_forest<T: Edge>(adj: Seq<Seq<Link>>, prev: Seq<Option<&T>>, disc: Seq<usize>, fin: Seq<usize>) -> bool {
    let n = adj.len() as int;
    &&& prev.len() == n
    &&& disc.len() == n
    &&& fin.len() == n
    &&& forall|v: int| 0 <= v < n ==> 1 <= #[trigger] disc[v] < fin[v] <= 2 * n
    &&& forall|u: int, v: int|
        0 <= u < n && 0 <= v < n && u != v ==> nested_or_disjoint(
            #[trigger] disc[u] as int,
            fin[u] as int,
            #[trigger] disc[v] as int,
            fin[v] as int,
        )
    &&& forall|v: int|
        0 <= v < n && (#[trigger] prev[v]) is Some ==> {
            let x = prev[v].unwrap().link().src as int;
            &&& prev[v].unwrap().link().dst == v
            &&& stored(adj, prev[v].unwrap().link())
            &&& disc[x] < disc[v]
            &&& fin[v] < fin[x]
        }
}

/// The state of a depth-first search at time `time`.
spec fn dfs_ok<T: Edge>(
    adj: Seq<Seq<Link>>,
    colors: Seq<Color>,
    disc: Seq<usize>,
    fin: Seq<usize>,
    prev: Seq<Option<&T>>,
    time: int,
) -> bool {
    let n = adj.len() as int;
    &&& n <= 0x3fff_fff0
    &&& colors.len() == n
    &&& disc.len() == n
    &&& fin.len() == n
    &&& prev.len() == n
    &&& 0 <= time
    &&& time + 2 * count_color(colors, Color::White) + count_color(colors, Color::Grey) <= 2 * n
    &&& forall|v: int|
        0 <= v < n && #[trigger] colors[v] == Color::White ==> disc[v] == 0 && fin[v] == 0 && prev[v] is None
    &&& forall|v: int| 0 <= v < n && #[trigger] colors[v] == Color::Grey ==> 1 <= disc[v] <= time && fin[v] == 0
    &&& forall|v: int| 0 <= v < n && #[trigger] colors[v] == Color::Black ==> 1 <= disc[v] < fin[v] <= time
    &&& forall|u: int, v: int|
        0 <= u < n && 0 <= v < n && u != v && #[trigger] colors[u] == Color::Black && #[trigger] colors[v]
            == Color::Black ==> nested_or_disjoint(disc[u] as int, fin[u] as int, disc[v] as int, fin[v] as int)
    &&& forall|b: int, g: int|
        0 <= b < n && 0 <= g < n && #[trigger] colors[b] == Color::Black && #[trigger] colors[g] == Color::Grey
            ==> fin[b] < disc[g] || disc[g] < disc[b]
    &&& forall|v: int|
        0 <= v < n && (#[trigger] prev[v]) is Some ==> {
            let x = prev[v].unwrap().link().src as int;
            &&& prev[v].unwrap().link().dst == v
            &&& stored(adj, prev[v].unwrap().link())
            &&& colors[v] != Color::White
            &&& colors[x] != Color::White
            &&& disc[x] < disc[v]
            &&& colors[x] == Color::Black ==> colors[v] == Color::Black && fin[v] < fin[x]
        }
    &&& forall|u: int, k: int|
        0 <= u < n && colors[u] == Color::Black && 0 <= k < adj[u].len() ==> {
            let d = (#[trigger] adj[u][k]).dst as int;
            &&& colors[d] != Color::White
            &&& disc[d] < fin[u]
        }
}

impl<T: Edge> Graph<T> {
    /// Visits `src` and, depth first, every node reachable from it that is
    /// still white.
    #[verifier::rlimit(100)]
    fn dfs_visit<'a>(
        &'a self,
        src: usize,
        discover: &mut Vec<usize>,
        finish: &mut Vec<usize>,
        color: &mut Vec<Color>,
        prev: &mut Vec<Option<&'a T>>,
        time: &mut usize,
    )
        requires
            self.wf(),
            src < self.node_count(),
            dfs_ok(self.adj(), old(color)@, old(discover)@, old(finish)@, old(prev)@, *old(time) as int),
            old(color)@[src as int] == Color::White,
        ensures
            dfs_ok(self.adj(), final(color)@, final(discover)@, final(finish)@, final(prev)@, *final(time) as int),
            final(color)@[src as int] == Color::Black,
            final(discover)@[src as int] == *old(time) + 1,
            final(finish)@[src as int] == *final(time),
            *old(time) < *final(time),
            final(prev)@[src as int] == old(prev)@[src as int],
            count_color(final(color)@, Color::White) < count_color(old(color)@, Color::White),
            forall|v: int|
                0 <= v < self.node_count() && old(color)@[v] != Color::White ==> {
                    &&& #[trigger] final(color)@[v] == old(color)@[v]
                    &&& final(discover)@[v] == old(discover)@[v]
                    &&& final(finish)@[v] == old(finish)@[v]
                    &&& final(prev)@[v] == old(prev)@[v]
                },
            forall|v: int|
                0 <= v < self.node_count() && old(color)@[v] == Color::White && #[trigger] final(color)@[v]
                    != Color::White ==> {
                    &&& final(color)@[v] == Color::Black
                    &&& *old(time) < final(discover)@[v]
                    &&& final(finish)@[v] <= *final(time)
                },
        decreases count_color(old(color)@, Color::White),
    {
        let ghost c0 = color@;
        let ghost d0 = discover@;
        let ghost f0 = finish@;
        let ghost p0 = prev@;
        let ghost adj = self.adj();
        let n = self.n_nodes;
        proof {
            lemma_count_update(color@, src as int, Color::White, Color::Grey);
            lemma_count_update(color@, src as int, Color::Grey, Color::Grey);
        }
        *time = *time + 1;
        discover.set(src, *time);
        color.set(src, Color::Grey);
        let t1 = *time;
        proof {
            assert forall|b: int, g: int|
                0 <= b < n && 0 <= g < n && #[trigger] color@[b] == Color::Black && #[trigger] color@[g] == Color::Grey
                    implies finish@[b] < discover@[g] || discover@[g] < discover@[b] by {
                if g == src as int {
                    assert(c0[b] == Color::Black);
                } else {
                    assert(c0[b] == Color::Black && c0[g] == Color::Grey);
                }
            }
            assert forall|v: int| 0 <= v < n && (#[trigger] prev@[v]) is Some implies {
                let x = prev@[v].unwrap().link().src as int;
                &&& prev@[v].unwrap().link().dst == v
                &&& stored(adj, prev@[v].unwrap().link())
                &&& color@[v] != Color::White
                &&& color@[x] != Color::White
                &&& discover@[x] < discover@[v]
                &&& color@[x] == Color::Black ==> color@[v] == Color::Black && finish@[v] < finish@[x]
            } by {
                assert(p0[v] is Some);
                let x = p0[v].unwrap().link().src as int;
                assert(c0[x] != Color::White);
                assert(x < n) by {
                    let l = p0[v].unwrap().link();
                    let kk = choose|kk: int| 0 <= kk < adj[l.src as int].len() && #[trigger] adj[l.src as int][kk] == l;
                }
                assert(v != src as int);
            }
            assert(dfs_ok(adj, color@, discover@, finish@, prev@, *time as int));
        }
        let list = &self.edges[src];
        let len = list.len();
        let mut k: usize = 0;
        while k < len
            invariant
                self.wf(),
                adj == self.adj(),
                n == self.node_count(),
                src < n,
                k <= len,
                list@ == self.edges@[src as int]@,
                len == adj[src as int].len(),
                dfs_ok(adj, color@, discover@, finish@, prev@, *time as int),
                color@[src as int] == Color::Grey,
                discover@[src as int] == t1,
                prev@[src as int] == p0[src as int],
                t1 == *old(time) + 1,
                t1 <= *time,
                count_color(color@, Color::White) < count_color(c0, Color::White),
                c0 == old(color)@,
                c0.len() == n,
                d0.len() == n,
                f0.len() == n,
                p0.len() == n,
                d0 == old(discover)@,
                f0 == old(finish)@,
                p0 == old(prev)@,
                c0[src as int] == Color::White,
                forall|v: int| 0 <= v < n && c0[v] != Color::White ==> #[trigger] color@[v] == c0[v],
                forall|v: int| 0 <= v < n && c0[v] != Color::White ==> #[trigger] discover@[v] == d0[v],
                forall|v: int| 0 <= v < n && c0[v] != Color::White ==> #[trigger] finish@[v] == f0[v],
                forall|v: int| 0 <= v < n && c0[v] != Color::White ==> #[trigger] prev@[v] == p0[v],
                forall|v: int|
                    0 <= v < n && v != src && c0[v] == Color::White && #[trigger] color@[v] != Color::White ==> {
                        &&& color@[v] == Color::Black
                        &&& t1 < discover@[v]
                        &&& finish@[v] <= *time
                    },
                forall|v: int|
                    0 <= v < n && (#[trigger] prev@[v]) is Some && prev@[v].unwrap().link().src == src ==> c0[v]
                        == Color::White && v != src,
                forall|j: int| 0 <= j < k ==> color@[(#[trigger] adj[src as int][j]).dst as int] != Color::White,
            decreases len - k,
        {
            let edge = &list[k];
            let dst = edge.destination();
            proof {
                assert(adj[src as int][k as int] == edge.link());
            }
            let ghost cb = color@;
            let ghost db = discover@;
            let ghost fb = finish@;
            let ghost pb = prev@;
            if color[dst] == Color::White {
                let ghost c1 = color@;
                let ghost pr1 = prev@;
                let ghost tb = *time;
                self.dfs_visit(dst, discover, finish, color, prev, time);
                let ghost pr2 = prev@;
                prev.set(dst, Some(edge));
                proof {
                    assert forall|j: int| 0 <= j < k implies color@[(#[trigger] adj[src as int][j]).dst as int] != Color::White by {
                        assert(c1[adj[src as int][j].dst as int] != Color::White);
                    }
                    assert(stored(adj, edge.link()));
                    assert(pr2[dst as int] is None);
                    assert forall|v: int| 0 <= v < n && (#[trigger] prev@[v]) is Some implies {
                        let x = prev@[v].unwrap().link().src as int;
                        &&& prev@[v].unwrap().link().dst == v
                        &&& stored(adj, prev@[v].unwrap().link())
                        &&& color@[v] != Color::White
                        &&& color@[x] != Color::White
                        &&& discover@[x] < discover@[v]
                        &&& color@[x] == Color::Black ==> color@[v] == Color::Black && finish@[v] < finish@[x]
                    } by {
                        if v != dst as int {
                            assert(pr2[v] is Some);
                        } else {
                            assert(color@[src as int] == Color::Grey);
                        }
                    }
                    assert forall|v: int|
                        0 <= v < n && v != src && c0[v] == Color::White && #[trigger] color@[v] != Color::White implies {
                            &&& color@[v] == Color::Black
                            &&& t1 < discover@[v]
                            &&& finish@[v] <= *time
                        } by {
                        if c1[v] != Color::White {
                        } else {
                        }
                    }
                    assert forall|v: int|
                        0 <= v < n && (#[trigger] prev@[v]) is Some && prev@[v].unwrap().link().src == src implies c0[v]
                            == Color::White && v != src by {
                        if v != dst as int {
                            assert(pr2[v] is Some);
                            if c1[v] != Color::White {
                                assert(pr1[v] is Some);
                            } else {
                                assert(color@[src as int] == Color::Grey);
                            }
                        }
                    }
                    assert forall|v: int| 0 <= v < n && c0[v] != Color::White implies #[trigger] color@[v] == c0[v] by {
                        assert(cb[v] == c0[v]);
                    }
                    assert forall|v: int| 0 <= v < n && c0[v] != Color::White implies #[trigger] discover@[v] == d0[v] by {
                        assert(cb[v] == c0[v] && db[v] == d0[v]);
                        assert(c1[v] != Color::White);
                        assert(color@[v] == c1[v]);
                    }
                    assert forall|v: int| 0 <= v < n && c0[v] != Color::White implies #[trigger] finish@[v] == f0[v] by {
                        assert(cb[v] == c0[v] && fb[v] == f0[v]);
                        assert(c1[v] != Color::White);
                        assert(color@[v] == c1[v]);
                    }
                    assert forall|v: int| 0 <= v < n && c0[v] != Color::White implies #[trigger] prev@[v] == p0[v] by {
                        assert(cb[v] == c0[v] && pb[v] == p0[v]);
                        assert(c1[v] != Color::White);
                        assert(color@[v] == c1[v]);
                        assert(pr2[v] == pb[v]);
                        assert(v != dst as int);
                    }
                    assert(dfs_ok(adj, color@, discover@, finish@, prev@, *time as int));
                }
            }
            proof {
                assert(color@[dst as int] != Color::White);
            }
            k = k + 1;
        }
        let ghost c2 = color@;
        proof {
            lemma_count_update(color@, src as int, Color::Grey, Color::Black);
            lemma_count_update(color@, src as int, Color::White, Color::Black);
        }
        *time = *time + 1;
        finish.set(src, *time);
        color.set(src, Color::Black);
        proof {
            assert forall|u: int, v: int|
                0 <= u < n && 0 <= v < n && u != v && #[trigger] color@[u] == Color::Black && #[trigger] color@[v]
                    == Color::Black implies nested_or_disjoint(discover@[u] as int, finish@[u] as int, discover@[v] as int, finish@[v] as int) by {
                if u == src as int {
                    if c0[v] != Color::White {
                        assert(c0[v] == Color::Black);
                    }
                } else if v == src as int {
                    if c0[u] != Color::White {
                        assert(c0[u] == Color::Black);
                    }
                } else {
                    assert(c2[u] == Color::Black && c2[v] == Color::Black);
                }
            }
            assert forall|b: int, g: int|
                0 <= b < n && 0 <= g < n && #[trigger] color@[b] == Color::Black && #[trigger] color@[g] == Color::Grey
                    implies finish@[b] < discover@[g] || discover@[g] < discover@[b] by {
                assert(c2[g] == Color::Grey);
                if c0[g] == Color::White {
                    assert(c2[g] == Color::Black);
                }
                if b != src as int {
                    assert(c2[b] == Color::Black);
                }
            }
            assert forall|v: int| 0 <= v < n && (#[trigger] prev@[v]) is Some implies {
                let x = prev@[v].unwrap().link().src as int;
                &&& prev@[v].unwrap().link().dst == v
                &&& stored(adj, prev@[v].unwrap().link())
                &&& color@[v] != Color::White
                &&& color@[x] != Color::White
                &&& discover@[x] < discover@[v]
                &&& color@[x] == Color::Black ==> color@[v] == Color::Black && finish@[v] < finish@[x]
            } by {
                let x = prev@[v].unwrap().link().src as int;
                if x == src as int {
                    assert(c0[v] == Color::White && v != src);
                    assert(c2[v] != Color::White);
                }
            }
            assert forall|v: int| 0 <= v < n && #[trigger] color@[v] == Color::Black implies 1 <= discover@[v] < finish@[v] <= *time by {
                if v != src as int {
                    assert(c2[v] == Color::Black);
                }
            }
            assert(dfs_ok(adj, color@, discover@, finish@, prev@, *time as int));
        }
    }
}


proof fn lemma_count_all(cs: Seq<Color>)
    requires
        forall|i: int| 0 <= i < cs.len() ==> #[trigger] cs[i] == Color::White,
    ensures
        count_color(cs, Color::White) == cs.len(),
        count_color(cs, Color::Grey) == 0,
    decreases cs.len(),
{
    if cs.len() > 0 {
        lemma_count_all(cs.drop_last());
    }
}

impl<T: Edge> Graph<T> {
    /// Depth-first search over the whole graph, roots taken in node order:
    /// the tree edge of each node, its discover time and its finish time.
    pub fn dfs(&self) -> (r: (Vec<Option<&T>>, Vec<usize>, Vec<usize>))
        requires
            self.wf(),
        ensures
            is_dfs_forest(self.adj(), r.0@, r.1@, r.2@),
            forall|u: int, k: int|
                0 <= u < self.adj().len() && 0 <= k < self.adj()[u].len() ==> r.1@[(#[trigger] self.adj()[u][k]).dst as int]
                    < r.2@[u],
    {
        let n = self.n_nodes;
        let ghost adj = self.adj();
        let mut discover: Vec<usize> = Vec::new();
        let mut finish: Vec<usize> = Vec::new();
        let mut color: Vec<Color> = Vec::new();
        let mut prev: Vec<Option<&T>> = Vec::new();
        let mut i: usize = 0;
        while i < n
            invariant
                i <= n,
                discover@.len() == i,
                finish@.len() == i,
                color@.len() == i,
                prev@.len() == i,
                forall|v: int| 0 <= v < i ==> #[trigger] color@[v] == Color::White,
                forall|v: int| 0 <= v < i ==> #[trigger] discover@[v] == 0,
                forall|v: int| 0 <= v < i ==> #[trigger] finish@[v] == 0,
                forall|v: int| 0 <= v < i ==> (#[trigger] prev@[v]) is None,
            decreases n - i,
        {
            discover.push(0);
            finish.push(0);
            color.push(Color::White);
            prev.push(None);
            i = i + 1;
        }
        let mut time: usize = 0;
        proof {
            lemma_count_all(color@);
        }
        let mut i: usize = 0;
        while i < n
            invariant
                self.wf(),
                adj == self.adj(),
                n == self.node_count(),
                i <= n,
                dfs_ok(adj, color@, discover@, finish@, prev@, time as int),
                forall|v: int| 0 <= v < i ==> #[trigger] color@[v] == Color::Black,
                forall|v: int| 0 <= v < n ==> #[trigger] color@[v] != Color::Grey,
            decreases n - i,
        {
            if color[i] == Color::White {
                let ghost c1 = color@;
                self.dfs_visit(i, &mut discover, &mut finish, &mut color, &mut prev, &mut time);
                proof {
                    assert forall|v: int| 0 <= v < n implies #[trigger] color@[v] != Color::Grey by {
                        if c1[v] != Color::White {
                            assert(color@[v] == c1[v]);
                        }
                    }
                    assert forall|v: int| 0 <= v < i + 1 implies #[trigger] color@[v] == Color::Black by {
                        if v < i {
                            assert(c1[v] == Color::Black);
                        }
                    }
                }
            }
            i = i + 1;
        }
        proof {
            lemma_count_bound(color@, Color::White);
            assert forall|u: int, v: int|
                0 <= u < n && 0 <= v < n && u != v implies nested_or_disjoint(
                #[trigger] discover@[u] as int,
                finish@[u] as int,
                #[trigger] discover@[v] as int,
                finish@[v] as int,
            ) by {
                assert(color@[u] == Color::Black && color@[v] == Color::Black);
            }
            assert forall|u: int, k: int| 0 <= u < n && 0 <= k < adj[u].len() implies discover@[(#[trigger] adj[u][k]).dst as int]
                < finish@[u] by {
                assert(color@[u] == Color::Black);
            }
            assert forall|v: int| 0 <= v < n implies 1 <= #[trigger] discover@[v] < finish@[v] <= 2 * n by {
                assert(color@[v] == Color::Black);
            }
            assert forall|v: int|
                0 <= v < n && (#[trigger] prev@[v]) is Some implies {
                    let x = prev@[v].unwrap().link().src as int;
                    &&& prev@[v].unwrap().link().dst == v
                    &&& stored(adj, prev@[v].unwrap().link())
                    &&& discover@[x] < discover@[v]
                    &&& finish@[v] < finish@[x]
                } by {
                let x = prev@[v].unwrap().link().src as int;
                assert(x < n);
                assert(color@[x] == Color::Black);
            }
        }
        (prev, discover, finish)
    }
}

} // verus!
