use vstd::prelude::*;
use crate::graphs::{Edge, Graph, GraphType, Link, MAX_NODES};

verus! {

/// An edge between two cells of a grid, tagged with the compass direction
/// ('N', 'E', 'S' or 'W') in which it leads.
#[derive(Clone, Copy, Debug)]
pub struct RobotEdge {
    src: usize,
    dst: usize,
    weight: i32,
    direction: char,
}

impl Edge for RobotEdge {
    closed spec fn link(&self) -> Link {
        Link { src: self.src, dst: self.dst, weight: self.weight }
    }

    closed spec fn tag(&self) -> Seq<char> {
        seq![self.direction]
    }

    fn new(src: usize, dst: usize, weight: i32) -> (r: Self) {
        RobotEdge { src, dst, weight, direction: 'N' }
    }

    fn source(&self) -> (r: usize) {
        self.src
    }

    fn set_source(&mut self, source: usize) {
        self.src = source;
    }

    fn destination(&self) -> (r: usize) {
        self.dst
    }

    fn set_destination(&mut self, destination: usize) {
        self.dst = destination;
    }

    fn weight(&self) -> (r: i32) {
        self.weight
    }

    fn duplicate(&self) -> (r: Self) {
        RobotEdge { src: self.src, dst: self.dst, weight: self.weight, direction: self.direction }
    }
}

impl RobotEdge {
    pub closed spec fn dir(&self) -> char {
        self.direction
    }

    /// An edge of the given weight and direction.
    pub fn with_direction(src: usize, dst: usize, weight: i32, direction: char) -> (r: Self)
        ensures
            r.link() == (Link { src, dst, weight }),
            r.dir() == direction,
    {
        RobotEdge { src, dst, weight, direction }
    }

    pub fn direction(&self) -> (r: char)
        ensures
            r == self.dir(),
    {
        self.direction
    }

    pub fn set_direction(&mut self, dir: char)
        ensures
            final(self).dir() == dir,
            final(self).link() == old(self).link(),
    {
        self.direction = dir;
    }
}

/// `grid` has `rows` rows of `cols` cells each.
pub open spec fn grid_shape(grid: Seq<Vec<char>>, rows: int, cols: int) -> bool {
    &&& grid.len() == rows
    &&& forall|i: int| 0 <= i < rows ==> (#[trigger] grid[i])@.len() == cols
}

/// A grid line read as characters, kept only if it has `columns` of them.
pub fn read_grid_file_line(line: Vec<char>, columns: usize) -> (r: Option<Vec<char>>)
    ensures
        r is Some <==> line@.len() == columns,
        r matches Some(v) ==> v@ == line@,
{
    if line.len() != columns {
        None
    } else {
        Some(line)
    }
}

/// The node of the cell placement at row `x`, column `y`, and the node to its
/// right (or below, when `vertical`), in a grid of `cols` columns seen
/// through a robot of `cell_size`.
fn get_src_dst(x: usize, y: usize, cols: usize, cell_size: (usize, usize), vertical: bool) -> (r: (usize, usize))
    requires
        1 <= cell_size.1 <= cols,
        (x + 2) * (cols - cell_size.1 + 1) <= MAX_NODES,
        y < cols - cell_size.1 + 1,
    ensures
        r.0 == x * (cols - cell_size.1 + 1) + y,
        r.1 == if vertical { r.0 + (cols - cell_size.1 + 1) } else { r.0 + 1 },
{
    let width = cols - (cell_size.1 - 1);
    proof {
        assert(x + 2 <= (x + 2) * width) by (nonlinear_arith)
            requires width >= 1;
        assert((x + 1) * width == x * width + width) by (nonlinear_arith);
        assert((x + 2) * width == x * width + 2 * width) by (nonlinear_arith);
    }
    if vertical {
        let src = (x * width) + y;
        let dst = ((x + 1) * width) + y;
        (src, dst)
    } else {
        let src = (x * width) + y;
        let dst = (x * width) + (y + 1);
        (src, dst)
    }
}

/// No cell of the `cell_size` block at row `x`, column `y` is `wall`.
fn is_a_node(grid: &Vec<Vec<char>>, x: usize, y: usize, wall: char, cell_size: (usize, usize)) -> (r: bool)
    requires
        x + cell_size.0 + 1 < usize::MAX,
        y + cell_size.1 + 1 < usize::MAX,
        x + cell_size.0 <= grid@.len(),
        forall|i: int| x <= i < x + cell_size.0 ==> y + cell_size.1 <= (#[trigger] grid@[i])@.len(),
    ensures
        r <==> forall|i: int, j: int|
            x <= i < x + cell_size.0 && y <= j < y + cell_size.1 ==> (#[trigger] grid@[i]@[j]) != wall,
{
    let mut i = x;
    while i < x + cell_size.0
        invariant
            x <= i <= x + cell_size.0,
            x + cell_size.0 + 1 < usize::MAX,
            y + cell_size.1 + 1 < usize::MAX,
            x + cell_size.0 <= grid@.len(),
            forall|a: int| x <= a < x + cell_size.0 ==> y + cell_size.1 <= (#[trigger] grid@[a])@.len(),
            forall|a: int, b: int| x <= a < i && y <= b < y + cell_size.1 ==> (#[trigger] grid@[a]@[b]) != wall,
        decreases x + cell_size.0 - i,
    {
        let mut j = y;
        while j < y + cell_size.1
            invariant
                x <= i < x + cell_size.0,
                y <= j <= y + cell_size.1,
                y + cell_size.1 + 1 < usize::MAX,
                x + cell_size.0 <= grid@.len(),
                y + cell_size.1 <= grid@[i as int]@.len(),
                forall|a: int, b: int| x <= a < i && y <= b < y + cell_size.1 ==> (#[trigger] grid@[a]@[b]) != wall,
                forall|b: int| y <= b < j ==> (#[trigger] grid@[i as int]@[b]) != wall,
            decreases y + cell_size.1 - j,
        {
            if grid[i][j] == wall {
                return false;
            }
            j = j + 1;
        }
        i = i + 1;
    }
    true
}

/// Some cell of the column just right of the block at row `x`, column `y` is `wall`.
fn has_obstacles_on_right(grid: &Vec<Vec<char>>, x: usize, y: usize, wall: char, cell_size: (usize, usize)) -> (r: bool)
    requires
        x + cell_size.0 + 1 < usize::MAX,
        y + cell_size.1 + 1 < usize::MAX,
        x + cell_size.0 <= grid@.len(),
        forall|i: int| x <= i < x + cell_size.0 ==> y + cell_size.1 < (#[trigger] grid@[i])@.len(),
    ensures
        r <==> exists|i: int| 0 <= i < cell_size.0 && (#[trigger] grid@[x + i]@[y + cell_size.1]) == wall,
{
    let mut i: usize = 0;
    while i < cell_size.0
        invariant
            i <= cell_size.0,
            x + cell_size.0 + 1 < usize::MAX,
            y + cell_size.1 + 1 < usize::MAX,
            x + cell_size.0 <= grid@.len(),
            forall|a: int| x <= a < x + cell_size.0 ==> y + cell_size.1 < (#[trigger] grid@[a])@.len(),
            forall|a: int| 0 <= a < i ==> (#[trigger] grid@[x + a]@[y + cell_size.1]) != wall,
        decreases cell_size.0 - i,
    {
        if grid[x + i][y + cell_size.1] == wall {
            return true;
        }
        i = i + 1;
    }
    false
}

/// Some cell of the row just below the block at row `x`, column `y` is `wall`.
fn has_obstacles_below(grid: &Vec<Vec<char>>, x: usize, y: usize, wall: char, cell_size: (usize, usize)) -> (r: bool)
    requires
        x + cell_size.0 + 1 < usize::MAX,
        y + cell_size.1 + 1 < usize::MAX,
        x + cell_size.0 < grid@.len(),
        y + cell_size.1 <= grid@[x + cell_size.0]@.len(),
    ensures
        r <==> exists|j: int| 0 <= j < cell_size.1 && (#[trigger] grid@[x + cell_size.0]@[y + j]) == wall,
{
    let mut j: usize = 0;
    while j < cell_size.1
        invariant
            j <= cell_size.1,
            x + cell_size.0 + 1 < usize::MAX,
            y + cell_size.1 + 1 < usize::MAX,
            x + cell_size.0 < grid@.len(),
            y + cell_size.1 <= grid@[x + cell_size.0]@.len(),
            forall|b: int| 0 <= b < j ==> (#[trigger] grid@[x + cell_size.0]@[y + b]) != wall,
        decreases cell_size.1 - j,
    {
        if grid[x + cell_size.0][y + j] == wall {
            return true;
        }
        j = j + 1;
    }
    false
}

/// Column `y` is the last one a block of `cell_size` can start at.
fn is_last_col(y: usize, cols: usize, cell_size: (usize, usize)) -> (r: bool)
    requires
        cell_size.1 <= cols,
    ensures
        r <==> y >= cols - cell_size.1,
{
    y >= (cols - cell_size.1)
}

/// Row `x` is the last one a block of `cell_size` can start at.
fn is_last_row(x: usize, rows: usize, cell_size: (usize, usize)) -> (r: bool)
    requires
        cell_size.0 <= rows,
    ensures
        r <==> x >= rows - cell_size.0,
{
    x >= (rows - cell_size.0)
}

/// A stored link joins two neighbouring block positions with weight 1: `width`
/// apart vertically or 1 apart horizontally.
pub open spec fn grid_link(l: Link, width: int) -> bool {
    &&& l.weight == 1
    &&& l.dst == l.src + 1 || l.src == l.dst + 1 || l.dst == l.src + width || l.src == l.dst + width
}

proof fn lemma_grid_links_after(g: Graph<RobotEdge>, l: Link, width: int)
    requires
        !g.directed(),
        l.src < g.adj().len(),
        l.dst < g.adj().len(),
        grid_link(l, width),
        forall|u: int, k: int|
            0 <= u < g.adj().len() && 0 <= k < g.adj()[u].len() ==> grid_link(#[trigger] g.adj()[u][k], width),
    ensures
        forall|u: int, k: int|
            0 <= u < g.adj_with(l).len() && 0 <= k < g.adj_with(l)[u].len() ==> grid_link(
                #[trigger] g.adj_with(l)[u][k],
                width,
            ),
{
    let adj = g.adj();
    let a = adj.update(l.src as int, adj[l.src as int].push(l));
    let rev = Link { src: l.dst, dst: l.src, weight: l.weight };
    let b = a.update(l.dst as int, a[l.dst as int].push(rev));
    assert(g.adj_with(l) == b);
    assert forall|u: int, k: int| 0 <= u < b.len() && 0 <= k < b[u].len() implies grid_link(#[trigger] b[u][k], width) by {
        if u == l.dst as int && k == a[u].len() {
        } else if u == l.src as int && k == adj[u].len() {
        } else {
            assert(b[u][k] == adj[u][k]);
        }
    }
}

/// The graph of the positions a robot of `cell_size` can take on `grid`
/// (`'*'` marks a wall), undirected, with an edge of weight 1 between
/// neighbouring free positions, tagged 'E'/'W' or 'S'/'N'.
pub fn robot_graph(grid: &Vec<Vec<char>>, rows: usize, cols: usize, cell_size: (usize, usize)) -> (r: Graph<RobotEdge>)
    requires
        grid_shape(grid@, rows as int, cols as int),
        1 <= cell_size.0 <= rows,
        1 <= cell_size.1 <= cols,
        rows <= MAX_NODES,
        cols <= MAX_NODES,
        (rows - cell_size.0 + 2) * (cols - cell_size.1 + 1) <= MAX_NODES,
    ensures
        r.wf(),
        r.node_count() == (rows - cell_size.0 + 1) * (cols - cell_size.1 + 1),
        !r.directed(),
        forall|u: int, k: int|
            0 <= u < r.adj().len() && 0 <= k < r.adj()[u].len() ==> grid_link(
                #[trigger] r.adj()[u][k],
                cols - cell_size.1 + 1,
            ),
{
    let height = rows - (cell_size.0 - 1);
    let width = cols - (cell_size.1 - 1);
    proof {
        assert(height * width <= (height + 1) * width) by (nonlinear_arith)
            requires width >= 1;
        assert(height * width >= 1) by (nonlinear_arith)
            requires width >= 1, height >= 1;
    }
    let n = height * width;
    let mut graph: Graph<RobotEdge> = Graph::new(n, GraphType::GraphUndirected);
    let mut cell_is_node: Vec<Option<bool>> = Vec::new();
    let mut t: usize = 0;
    while t < n
        invariant
            t <= n,
            cell_is_node@.len() == t,
        decreases n - t,
    {
        cell_is_node.push(None);
        t = t + 1;
    }
    cell_is_node.set(0, Some(is_a_node(grid, 0, 0, '*', cell_size)));
    let mut i: usize = 0;
    while i < height
        invariant
            grid_shape(grid@, rows as int, cols as int),
            1 <= cell_size.0 <= rows,
            1 <= cell_size.1 <= cols,
            rows <= MAX_NODES,
            cols <= MAX_NODES,
            height == rows - cell_size.0 + 1,
            width == cols - cell_size.1 + 1,
            (height + 1) * width <= MAX_NODES,
            n == height * width,
            n <= MAX_NODES,
            i <= height,
            cell_is_node@.len() == n,
            graph.wf(),
            graph.node_count() == n,
            !graph.directed(),
            graph.edge_count() <= 2 * i * width,
            forall|u: int, k: int|
                0 <= u < graph.adj().len() && 0 <= k < graph.adj()[u].len() ==> grid_link(
                    #[trigger] graph.adj()[u][k],
                    width as int,
                ),
        decreases height - i,
    {
        let mut j: usize = 0;
        while j < width
            invariant
                grid_shape(grid@, rows as int, cols as int),
                1 <= cell_size.0 <= rows,
                1 <= cell_size.1 <= cols,
                rows <= MAX_NODES,
                cols <= MAX_NODES,
                height == rows - cell_size.0 + 1,
                width == cols - cell_size.1 + 1,
                (height + 1) * width <= MAX_NODES,
                n == height * width,
                n <= MAX_NODES,
                i < height,
                j <= width,
                cell_is_node@.len() == n,
                graph.wf(),
                graph.node_count() == n,
                !graph.directed(),
                graph.edge_count() <= 2 * i * width + 2 * j,
                forall|u: int, k: int|
                    0 <= u < graph.adj().len() && 0 <= k < graph.adj()[u].len() ==> grid_link(
                        #[trigger] graph.adj()[u][k],
                        width as int,
                    ),
            decreases width - j,
        {
            proof {
                assert((i + 1) * width <= height * width) by (nonlinear_arith)
                    requires i < height;
                assert((i + 2) * width <= (height + 1) * width) by (nonlinear_arith)
                    requires i < height;
                assert((i + 1) * width == i * width + width) by (nonlinear_arith);
                assert(2 * i * width + 2 * j + 2 <= 2 * (i + 1) * width) by (nonlinear_arith)
                    requires j < width;
                assert(2 * (i + 1) * width <= 2 * height * width) by (nonlinear_arith)
                    requires i < height;
            }
            proof {
                assert(2 * i * width + 2 * j + 2 <= 2 * n) by (nonlinear_arith)
                    requires
                        j < width,
                        i < height,
                        n == height * width,
                ;
                assert(i * width + j < n) by (nonlinear_arith)
                    requires
                        j < width,
                        i < height,
                        n == height * width,
                ;
            }
            let src = get_src_dst(i, j, cols, cell_size, false).0;
            if cell_is_node[src].is_none() {
                cell_is_node.set(src, Some(is_a_node(grid, i, j, '*', cell_size)));
            }
            if cell_is_node[src] == Some(true) {
                if !is_last_col(j, cols, cell_size) {
                    let (s, d) = get_src_dst(i, j, cols, cell_size, false);
                    if !has_obstacles_on_right(grid, i, j, '*', cell_size) {
                        let ghost g0 = graph;
                        proof {
                            graph.lemma_adj_len();
                        }
                        let _ = graph.add_edge_pair(
                            RobotEdge::with_direction(s, d, 1, 'E'),
                            RobotEdge::with_direction(d, s, 1, 'W'),
                        );
                        proof {
                            lemma_grid_links_after(g0, Link { src: s, dst: d, weight: 1 }, width as int);
                        }
                        cell_is_node.set(d, Some(true));
                    } else {
                        cell_is_node.set(d, Some(false));
                    }
                }
                if !is_last_row(i, rows, cell_size) {
                    let (s, d) = get_src_dst(i, j, cols, cell_size, true);
                    proof {
                        assert(i * width + j + width < n) by (nonlinear_arith)
                            requires
                                j < width,
                                i + 1 < height,
                                n == height * width,
                        ;
                    }
                    if !has_obstacles_below(grid, i, j, '*', cell_size) {
                        let ghost g0 = graph;
                        proof {
                            graph.lemma_adj_len();
                        }
                        let _ = graph.add_edge_pair(
                            RobotEdge::with_direction(s, d, 1, 'S'),
                            RobotEdge::with_direction(d, s, 1, 'N'),
                        );
                        proof {
                            lemma_grid_links_after(g0, Link { src: s, dst: d, weight: 1 }, width as int);
                        }
                        cell_is_node.set(d, Some(true));
                    } else {
                        cell_is_node.set(d, Some(false));
                    }
                }
            }
            j = j + 1;
        }
        proof {
            assert(2 * i * width + 2 * width == 2 * (i + 1) * width) by (nonlinear_arith);
        }
        i = i + 1;
    }
    graph
}

} // verus!
