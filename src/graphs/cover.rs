use vstd::prelude::*;
use vstd::set_lib::lemma_map_size;
use vstd::relations::injective_on;
use super::{Edge, Graph, Link};
use super::traversal::stored;

verus! {

/// `x` is an endpoint of `l`.
pub open spec fn touches(l: Link, x: int) -> bool {
    l.src == x || l.dst == x
}

/// `x` is an endpoint of one of the links of `c`.
pub open spec fn covers(c: Seq<Link>, x: int) -> bool {
    exists|i: int| 0 <= i < c.len() && touches(#[trigger] c[i], x)
}

/// No two links of `m` share an endpoint.
pub open spec fn is_matching(m: Seq<Link>) -> bool {
    forall|i: int, j: int|
        0 <= i < m.len() && 0 <= j < m.len() && i != j ==> !touches(#[trigger] m[i], m[j].src as int) && !touches(
            #[trigger] m[j],
            m[i].src as int,
        ) && !touches(m[i], m[j].dst as int) && !touches(m[j], m[i].dst as int)
}

/// Every stored edge has an endpoint in `c`.
pub open spec fn is_vertex_cover(adj: Seq<Seq<Link>>, c: Set<int>) -> bool {
    forall|u: int, k: int|
        0 <= u < adj.len() && 0 <= k < adj[u].len() ==> c.contains((#[trigger] adj[u][k]).src as int) || c.contains(
            adj[u][k].dst as int,
        )
}

/// The links of a sequence of edges.
pub open spec fn links_of<T: Edge>(s: Seq<&T>) -> Seq<Link> {
    Seq::new(s.len(), |i: int| s[i].link())
}

/// The nodes that are an endpoint of a link of `m`.
pub open spec fn endpoints(m: Seq<Link>) -> Set<int> {
    Set::new(|x: int| covers(m, x))
}

proof fn lemma_endpoints_len(m: Seq<Link>)
    ensures
        endpoints(m).finite(),
        endpoints(m).len() <= 2 * m.len(),
    decreases m.len(),
{
    if m.len() == 0 {
        assert(endpoints(m) =~= Set::<int>::empty());
    } else {
        let m2 = m.drop_last();
        lemma_endpoints_len(m2);
        let l = m.last();
        let two = set![l.src as int, l.dst as int];
        assert(endpoints(m) =~= endpoints(m2).union(two)) by {
            assert forall|x: int| endpoints(m).contains(x) implies endpoints(m2).union(two).contains(x) by {
                let i = choose|i: int| 0 <= i < m.len() && touches(#[trigger] m[i], x);
                if i < m.len() - 1 {
                    assert(m2[i] == m[i]);
                }
            }
            assert forall|x: int| endpoints(m2).union(two).contains(x) implies endpoints(m).contains(x) by {
                if endpoints(m2).contains(x) {
                    let i = choose|i: int| 0 <= i < m2.len() && touches(#[trigger] m2[i], x);
                    assert(m[i] == m2[i]);
                } else {
                    assert(touches(m[m.len() - 1], x));
                }
            }
        }
        vstd::set_lib::lemma_len_union(endpoints(m2), two);
        assert(two.len() <= 2) by {
            if l.src == l.dst {
                assert(two =~= set![l.src as int]);
            }
        }
    }
}

/// The endpoints of a matching of the graph number at most twice the nodes
/// of any vertex cover: the greedy cover is within a factor 2 of a smallest.
pub proof fn lemma_cover_within_twice(adj: Seq<Seq<Link>>, m: Seq<Link>, c: Set<int>)
    requires
        is_matching(m),
        forall|i: int| 0 <= i < m.len() ==> stored(adj, #[trigger] m[i]),
        is_vertex_cover(adj, c),
        c.finite(),
    ensures
        endpoints(m).len() <= 2 * c.len(),
{
    lemma_matching_within_cover(adj, m, c);
    lemma_endpoints_len(m);
}

/// Edges of the graph that share no endpoint need, in any vertex cover, one
/// node each: a matching is no larger than any vertex cover, so the endpoints
/// of a matching number at most twice a smallest vertex cover.
pub proof fn lemma_matching_within_cover(adj: Seq<Seq<Link>>, m: Seq<Link>, c: Set<int>)
    requires
        is_matching(m),
        forall|i: int| 0 <= i < m.len() ==> stored(adj, #[trigger] m[i]),
        is_vertex_cover(adj, c),
        c.finite(),
    ensures
        m.len() <= c.len(),
{
    let pick = |i: int| if c.contains(m[i].src as int) { m[i].src as int } else { m[i].dst as int };
    let idx = Set::new(|i: int| 0 <= i < m.len());
    assert forall|i: int| 0 <= i < m.len() implies c.contains(#[trigger] pick(i)) by {
        let l = m[i];
        let k = choose|k: int| 0 <= k < adj[l.src as int].len() && #[trigger] adj[l.src as int][k] == l;
        assert(adj[l.src as int][k] == l);
    }
    assert(injective_on(pick, idx)) by {
        assert forall|i: int, j: int| idx.contains(i) && idx.contains(j) && #[trigger] pick(i) == #[trigger] pick(j) implies i == j by {
            if i != j {
                assert(!touches(m[i], m[j].src as int) && !touches(m[i], m[j].dst as int));
            }
        }
    }
    vstd::set_lib::lemma_int_range(0, m.len() as int);
    assert(idx =~= vstd::set_lib::set_int_range(0, m.len() as int));
    let img = idx.map(pick);
    lemma_map_size(idx, img, pick);
    assert(img.subset_of(c)) by {
        assert forall|x: int| img.contains(x) implies c.contains(x) by {
            let i = choose|i: int| idx.contains(i) && pick(i) == x;
        }
    }
    vstd::set_lib::lemma_len_subset(img, c);
}

impl<T: Edge> Graph<T> {
    /// Greedy vertex cover: scanning the nodes in order, an uncovered node
    /// takes its first edge to an uncovered node, and both become covered.
    /// The chosen edges share no endpoint, and every edge of the graph has an
    /// endpoint among theirs.
    pub fn approx_vertex_cover(&self) -> (r: Vec<&T>)
        requires
            self.wf(),
        ensures
            forall|i: int| 0 <= i < r@.len() ==> stored(self.adj(), #[trigger] r@[i].link()),
            is_matching(links_of(r@)),
            forall|a: int, b: int| 0 <= a < b < r@.len() ==> (#[trigger] r@[a]).link().src < (#[trigger] r@[b]).link().src,
            forall|u: int, k: int|
                0 <= u < self.adj().len() && 0 <= k < self.adj()[u].len() ==> covers(
                    links_of(r@),
                    (#[trigger] self.adj()[u][k]).src as int,
                ) || covers(links_of(r@), self.adj()[u][k].dst as int),
    {
        let n = self.n_nodes;
        let ghost adj = self.adj();
        let mut cover: Vec<&T> = Vec::new();
        let mut covered: Vec<bool> = Vec::new();
        let mut i: usize = 0;
        while i < n
            invariant
                i <= n,
                covered@.len() == i,
                forall|v: int| 0 <= v < i ==> !#[trigger] covered@[v],
            decreases n - i,
        {
            covered.push(false);
            i = i + 1;
        }
        let mut i: usize = 0;
        while i < n
            invariant
                self.wf(),
                adj == self.adj(),
                n == self.node_count(),
                i <= n,
                covered@.len() == n,
                forall|x: int| 0 <= x < n ==> (#[trigger] covered@[x] <==> covers(links_of(cover@), x)),
                forall|j: int| 0 <= j < cover@.len() ==> stored(adj, #[trigger] cover@[j].link()),
                forall|j: int| 0 <= j < cover@.len() ==> (#[trigger] cover@[j]).link().src < i,
                forall|a: int, b: int| 0 <= a < b < cover@.len() ==> (#[trigger] cover@[a]).link().src < (#[trigger] cover@[b]).link().src,
                is_matching(links_of(cover@)),
                forall|u: int, k: int|
                    0 <= u < i && 0 <= k < adj[u].len() ==> covered@[(#[trigger] adj[u][k]).src as int]
                        || covered@[adj[u][k].dst as int],
            decreases n - i,
        {
            if !covered[i] {
                let list = &self.edges[i];
                let len = list.len();
                let mut k: usize = 0;
                let mut picked = false;
                while k < len && !picked
                    invariant
                        self.wf(),
                        adj == self.adj(),
                        n == self.node_count(),
                        i < n,
                        k <= len,
                        list@ == self.edges@[i as int]@,
                        len == adj[i as int].len(),
                        covered@.len() == n,
                        picked ==> covered@[i as int],
                        !picked ==> !covered@[i as int],
                        !picked ==> forall|j: int| 0 <= j < k ==> covered@[(#[trigger] adj[i as int][j]).dst as int],
                        forall|x: int| 0 <= x < n ==> (#[trigger] covered@[x] <==> covers(links_of(cover@), x)),
                        forall|j: int| 0 <= j < cover@.len() ==> stored(adj, #[trigger] cover@[j].link()),
                        !picked ==> forall|j: int| 0 <= j < cover@.len() ==> (#[trigger] cover@[j]).link().src < i,
                        picked ==> forall|j: int| 0 <= j < cover@.len() ==> (#[trigger] cover@[j]).link().src <= i,
                        forall|a: int, b: int| 0 <= a < b < cover@.len() ==> (#[trigger] cover@[a]).link().src < (#[trigger] cover@[b]).link().src,
                        is_matching(links_of(cover@)),
                        forall|u: int, j: int|
                            0 <= u < i && 0 <= j < adj[u].len() ==> covered@[(#[trigger] adj[u][j]).src as int]
                                || covered@[adj[u][j].dst as int],
                    decreases len - k,
                {
                    let edge = &list[k];
                    let dst = edge.destination();
                    proof {
                        assert(adj[i as int][k as int] == edge.link());
                    }
                    if !covered[dst] {
                        let ghost old_links = links_of(cover@);
                        proof {
                            assert(stored(adj, edge.link()));
                            assert(!covers(old_links, i as int));
                            assert(!covers(old_links, dst as int));
                            assert(edge.link().src == i);
                        }
                        let ghost oc = cover@;
                        cover.push(edge);
                        proof {
                            assert forall|a: int, b: int| 0 <= a < b < cover@.len() implies (#[trigger] cover@[a]).link().src
                                < (#[trigger] cover@[b]).link().src by {
                                assert(cover@[a] == oc[a]);
                                if b < oc.len() {
                                    assert(cover@[b] == oc[b]);
                                }
                            }
                            assert forall|j: int| 0 <= j < cover@.len() implies (#[trigger] cover@[j]).link().src <= i by {
                                if j < oc.len() {
                                    assert(cover@[j] == oc[j]);
                                }
                            }
                        }
                        covered.set(dst, true);
                        covered.set(i, true);
                        picked = true;
                        proof {
                            let nl = links_of(cover@);
                            assert(nl =~= old_links.push(edge.link()));
                            assert forall|x: int| 0 <= x < n implies (#[trigger] covered@[x] <==> covers(nl, x)) by {
                                if covers(old_links, x) {
                                    let j = choose|j: int| 0 <= j < old_links.len() && touches(#[trigger] old_links[j], x);
                                    assert(nl[j] == old_links[j]);
                                }
                                if covers(nl, x) {
                                    let j = choose|j: int| 0 <= j < nl.len() && touches(#[trigger] nl[j], x);
                                    if j < old_links.len() {
                                        assert(nl[j] == old_links[j]);
                                    }
                                }
                                if x == i as int || x == dst as int {
                                    assert(touches(nl[old_links.len() as int], x));
                                }
                            }
                            assert forall|a: int, b: int|
                                0 <= a < nl.len() && 0 <= b < nl.len() && a != b implies !touches(#[trigger] nl[a], nl[b].src as int)
                                && !touches(#[trigger] nl[b], nl[a].src as int) && !touches(nl[a], nl[b].dst as int)
                                && !touches(nl[b], nl[a].dst as int) by {
                                let last = old_links.len() as int;
                                if a == last || b == last {
                                    let o = if a == last { b } else { a };
                                    assert(nl[o] == old_links[o]);
                                    assert(!touches(old_links[o], i as int));
                                    assert(!touches(old_links[o], dst as int));
                                } else {
                                    assert(nl[a] == old_links[a] && nl[b] == old_links[b]);
                                }
                            }
                            assert forall|j: int| 0 <= j < cover@.len() implies stored(adj, #[trigger] cover@[j].link()) by {
                                if j < old_links.len() {
                                }
                            }
                        }
                    }
                    k = k + 1;
                }
            }
            i = i + 1;
        }
        cover
    }
}

} // verus!
