use vstd::prelude::*;

verus! {

/// A node of a [`BinaryTree`], linked to others by their index in the tree's arena.
pub struct Node {
    parent: Option<usize>,
    left: Option<usize>,
    right: Option<usize>,
    key: i32,
    position: usize,
}

impl Node {
    /// A detached node holding `key`, to be stored at index `pos`.
    pub fn new(key: i32, pos: usize) -> (r: Self)
        ensures
            r.key() == key,
            r.position() == pos,
            r.parent() is None,
            r.left() is None,
            r.right() is None,
    {
        Node { parent: None, left: None, right: None, key, position: pos }
    }

    pub closed spec fn key(&self) -> i32 {
        self.key
    }

    pub closed spec fn position(&self) -> usize {
        self.position
    }

    pub closed spec fn parent(&self) -> Option<usize> {
        self.parent
    }

    pub closed spec fn left(&self) -> Option<usize> {
        self.left
    }

    pub closed spec fn right(&self) -> Option<usize> {
        self.right
    }
}

/// An unbalanced binary search tree of `i32` keys kept in an arena.
pub struct BinaryTree {
    nodes: Vec<Node>,
    head: Option<usize>,
}

#[verifier::opaque]
spec fn nodes_wf(nodes: Seq<Node>) -> bool {
    let n = nodes.len();
    &&& forall|i: int|
        0 <= i < n ==> {
            let nd = #[trigger] nodes[i];
            &&& nd.position == i
            &&& nd.left matches Some(l) ==> i < l < n && nodes[l as int].parent == Some(i as usize)
                && nodes[l as int].key < nd.key
            &&& nd.right matches Some(r) ==> i < r < n && nodes[r as int].parent == Some(i as usize)
                && nodes[r as int].key >= nd.key
            &&& i > 0 ==> (nd.parent is Some && nd.parent.unwrap() < i && (nodes[nd.parent.unwrap() as int].left
                == Some(i as usize) || nodes[nd.parent.unwrap() as int].right == Some(i as usize)))
        }
    &&& forall|i: int, j: int|
        0 <= i < n && 0 <= j < n && i != j && #[trigger] nodes[i].left is Some
            && #[trigger] nodes[j].left is Some ==> nodes[i].left != nodes[j].left
    &&& forall|i: int, j: int|
        0 <= i < n && 0 <= j < n && i != j && #[trigger] nodes[i].right is Some
            && #[trigger] nodes[j].right is Some ==> nodes[i].right != nodes[j].right
}


#[verifier::rlimit(100)]
proof fn lemma_attach(nodes: Seq<Node>, x: int, key: i32, leaf: Node)
    requires
        nodes_wf(nodes),
        0 <= x < nodes.len(),
        key < nodes[x].key ==> nodes[x].left is None,
        key >= nodes[x].key ==> nodes[x].right is None,
        leaf.key == key,
        leaf.position == nodes.len(),
        leaf.parent == Some(x as usize),
        leaf.left is None,
        leaf.right is None,
        nodes.len() < usize::MAX,
    ensures
        nodes_wf(
            nodes.update(
                x,
                Node {
                    left: if key < nodes[x].key { Some(nodes.len() as usize) } else { nodes[x].left },
                    right: if key < nodes[x].key { nodes[x].right } else { Some(nodes.len() as usize) },
                    ..nodes[x]
                },
            ).push(leaf),
        ),
{
    reveal(nodes_wf);
    let old_nodes = nodes;
    let pn = Node {
        left: if key < nodes[x].key { Some(nodes.len() as usize) } else { nodes[x].left },
        right: if key < nodes[x].key { nodes[x].right } else { Some(nodes.len() as usize) },
        ..nodes[x]
    };
    let nn = nodes.update(x, pn).push(leaf);
    let n = nn.len();
    assert(nodes[x].position == x);
    assert forall|i: int| 0 <= i < n implies {
        let nd = #[trigger] nn[i];
        &&& nd.position == i
        &&& nd.left matches Some(l) ==> i < l < n && nn[l as int].parent == Some(i as usize)
            && nn[l as int].key < nd.key
        &&& nd.right matches Some(r) ==> i < r < n && nn[r as int].parent == Some(i as usize)
            && nn[r as int].key >= nd.key
        &&& i > 0 ==> (nd.parent is Some && nd.parent.unwrap() < i && (nn[nd.parent.unwrap() as int].left
            == Some(i as usize) || nn[nd.parent.unwrap() as int].right == Some(i as usize)))
    } by {
        if i < n - 1 {
            let o = old_nodes[i];
            assert(old_nodes[i] == nodes[i]);
            if o.left is Some {
                assert(old_nodes[o.left.unwrap() as int].parent == nn[o.left.unwrap() as int].parent);
            }
            if o.right is Some {
                assert(old_nodes[o.right.unwrap() as int].parent == nn[o.right.unwrap() as int].parent);
            }
            if i > 0 {
                let p = o.parent.unwrap();
                assert(old_nodes[p as int].left == Some(i as usize) || old_nodes[p as int].right == Some(i as usize));
            }
        }
    }
    assert forall|i: int, j: int|
        0 <= i < n && 0 <= j < n && i != j && #[trigger] nn[i].left is Some && #[trigger] nn[j].left is Some implies nn[i].left
            != nn[j].left by {
        if i < n - 1 && j < n - 1 && i != x && j != x {
            assert(old_nodes[i].left is Some && old_nodes[j].left is Some);
        }
    }
    assert forall|i: int, j: int|
        0 <= i < n && 0 <= j < n && i != j && #[trigger] nn[i].right is Some && #[trigger] nn[j].right is Some implies nn[i].right
            != nn[j].right by {
        if i < n - 1 && j < n - 1 && i != x && j != x {
            assert(old_nodes[i].right is Some && old_nodes[j].right is Some);
        }
    }
}

impl BinaryTree {
    /// The keys in order of insertion.
    pub closed spec fn keys(&self) -> Seq<i32> {
        Seq::new(self.nodes@.len(), |i: int| self.nodes@[i].key)
    }

    /// Each node knows its index; links point to later nodes, whose parent
    /// link points back; a left child's key is smaller, a right child's key
    /// no smaller; the head is the first node.
    pub closed spec fn wf(&self) -> bool {
        let n = self.nodes@.len();
        &&& (n == 0 <==> self.head is None)
        &&& n > 0 ==> self.head == Some(0usize) && self.nodes@[0].parent is None
        &&& nodes_wf(self.nodes@)
    }

    pub fn new() -> (r: Self)
        ensures
            r.wf(),
            r.keys() == Seq::<i32>::empty(),
    {
        let r = BinaryTree { nodes: Vec::new(), head: None };
        assert(r.keys() =~= Seq::<i32>::empty());
        assert(nodes_wf(r.nodes@)) by {
            reveal(nodes_wf);
        }
        r
    }

    /// Inserts `key` as a new leaf: from the head, go left where `key` is
    /// smaller than the node's key and right otherwise.
    pub fn insert_key(&mut self, key: i32)
        requires
            old(self).wf(),
            old(self).keys().len() < usize::MAX,
        ensures
            final(self).wf(),
            final(self).keys() == old(self).keys().push(key),
    {
        let node_pos = self.nodes.len();
        let mut node = Node::new(key, node_pos);
        match self.head {
            Some(head) => {
                let mut x: usize = head;
                loop
                    invariant
                        self.wf(),
                        self.nodes@ == old(self).nodes@,
                        self.head == old(self).head,
                        x < self.nodes@.len(),
                        node_pos == self.nodes@.len(),
                    ensures
                        x < self.nodes@.len(),
                        key < self.nodes@[x as int].key ==> self.nodes@[x as int].left is None,
                        key >= self.nodes@[x as int].key ==> self.nodes@[x as int].right is None,
                        self.wf(),
                        self.nodes@ == old(self).nodes@,
                        self.head == old(self).head,
                    decreases self.nodes@.len() - x,
                {
                    proof {
                        reveal(nodes_wf);
                        assert(self.nodes@[x as int].position == x);
                    }
                    if key < self.nodes[x].key {
                        match self.nodes[x].left {
                            Some(left) => x = left,
                            None => break,
                        }
                    } else {
                        match self.nodes[x].right {
                            Some(right) => x = right,
                            None => break,
                        }
                    }
                }
                node.parent = Some(self.nodes[x].position);
                let ghost old_nodes = self.nodes@;
                let mut parent_node = Node {
                    parent: self.nodes[x].parent,
                    left: self.nodes[x].left,
                    right: self.nodes[x].right,
                    key: self.nodes[x].key,
                    position: self.nodes[x].position,
                };
                if key < parent_node.key {
                    parent_node.left = Some(node_pos);
                } else {
                    parent_node.right = Some(node_pos);
                }
                proof {
                    reveal(nodes_wf);
                    assert(old_nodes[x as int].position == x);
                    lemma_attach(old_nodes, x as int, key, node);
                }
                self.nodes.set(x, parent_node);
                self.nodes.push(node);
                proof {
                    assert(self.nodes@ =~= old_nodes.update(
                        x as int,
                        Node {
                            left: if key < old_nodes[x as int].key { Some(old_nodes.len() as usize) } else { old_nodes[x as int].left },
                            right: if key < old_nodes[x as int].key { old_nodes[x as int].right } else { Some(old_nodes.len() as usize) },
                            ..old_nodes[x as int]
                        },
                    ).push(node));
                }
                proof {
                    assert(self.keys() =~= old(self).keys().push(key));
                }
            },
            None => {
                self.head = Some(node_pos);
                self.nodes.push(node);
                proof {
                    reveal(nodes_wf);
                    assert(self.keys() =~= old(self).keys().push(key));
                }
            },
        }
    }
}

} // verus!
