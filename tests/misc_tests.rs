use graph_algos::binary_trees::BinaryTree;
use graph_algos::dynamic_programming::bottom_up_cut_rod;
use graph_algos::graphs::{Edge, Graph, GraphType};
use graph_algos::robot::{read_grid_file_line, robot_graph, RobotEdge};

#[test]
fn test_binary_tree() {
    let array = vec![2, 3, -1, 7, 6, 9, 5];
    let mut bt = BinaryTree::new();
    for i in 0..array.len() {
        bt.insert_key(array[i]);
    }
}

#[test]
fn rod_cutting_textbook_prices() {
    let prices = vec![0, 1, 5, 8, 9, 10, 17, 17, 20];
    let (results, cuts) = bottom_up_cut_rod(&prices, 8);
    assert_eq!(results, vec![0, 1, 5, 8, 10, 13, 17, 18, 22]);
    assert_eq!(cuts, vec![0, 1, 2, 3, 2, 2, 6, 1, 2]);
}

#[test]
fn rod_cutting_length_zero() {
    let prices = vec![0];
    let (results, cuts) = bottom_up_cut_rod(&prices, 0);
    assert_eq!(results, vec![0]);
    assert_eq!(cuts, vec![0]);
}

#[test]
fn grid_line_width_is_checked() {
    assert_eq!(read_grid_file_line(vec!['.', '*', '.'], 3), Some(vec!['.', '*', '.']));
    assert_eq!(read_grid_file_line(vec!['.', '*'], 3), None);
}

fn grid(lines: &[&str]) -> Vec<Vec<char>> {
    lines.iter().map(|l| l.chars().collect()).collect()
}

#[test]
fn robot_graph_single_cells() {
    // . . *
    // . * .
    let g = robot_graph(&grid(&["..*", ".*."]), 2, 3, (1, 1));
    assert_eq!(g.n_nodes(), 6);
    let e0: Vec<(usize, char)> = g.edges(0).iter().map(|e| (e.destination(), e.direction())).collect();
    assert_eq!(e0, vec![(1, 'E'), (3, 'S')]);
    let e1: Vec<(usize, char)> = g.edges(1).iter().map(|e| (e.destination(), e.direction())).collect();
    assert_eq!(e1, vec![(0, 'W')]);
    let e3: Vec<(usize, char)> = g.edges(3).iter().map(|e| (e.destination(), e.direction())).collect();
    assert_eq!(e3, vec![(0, 'N')]);
    assert!(g.edges(5).is_empty());
    let (_, dist) = g.bfs(0);
    assert_eq!(dist, vec![0, 1, -1, 1, -1, -1]);
}

#[test]
fn robot_graph_two_by_two_robot() {
    // a 2x2 robot on a 3x3 floor with one wall in the corner
    let g = robot_graph(&grid(&["...", "...", "..*"]), 3, 3, (2, 2));
    assert_eq!(g.n_nodes(), 4);
    let (_, dist) = g.bfs(0);
    assert_eq!(dist, vec![0, 1, 1, -1]);
    for e in g.edges(0) {
        assert_eq!(e.weight(), 1);
    }
}

#[test]
fn undirected_reverse_copy_keeps_direction_tag() {
    let mut g: Graph<RobotEdge> = Graph::new(2, GraphType::GraphUndirected);
    g.add_edge(RobotEdge::with_direction(0, 1, 1, 'E')).unwrap();
    assert_eq!(g.edges(1)[0].destination(), 0);
    assert_eq!(g.edges(1)[0].direction(), 'E');
    assert_eq!(g.edges(0)[0].direction(), 'E');
}
