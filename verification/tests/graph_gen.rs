use dungeon::geometry::{convex_hull, Line, Point};
use dungeon::graph_gen::{proximity_graph, Dungeon, Graph, Node};
use rand::SeedableRng;

fn rng_from_seed(seed: u64) -> rand::rngs::StdRng {
    rand::rngs::StdRng::seed_from_u64(seed)
}

fn pt(x: i64, y: i64) -> Point {
    Point { x, y }
}

#[test]
fn square_scenario_keeps_sides_and_one_diagonal() {
    // Four corners of a square; sides first, then the two diagonals.
    let points = vec![pt(0, 0), pt(2, 0), pt(2, 2), pt(0, 2)];
    let pairs = vec![(0, 1), (1, 2), (2, 3), (0, 3), (0, 2), (1, 3)];
    let draws = vec![true; 6];
    let (adj, lines) = proximity_graph(&points, 100, &pairs, &draws);
    // The four sides and the first diagonal are accepted; the second
    // diagonal crosses the first and is rejected by the planarity check.
    assert_eq!(adj[0], vec![1, 3, 2]);
    assert_eq!(adj[1], vec![0, 2]);
    assert_eq!(adj[2], vec![1, 3, 0]);
    assert_eq!(adj[3], vec![2, 0]);
    assert_eq!(lines.len(), 5);
    assert_eq!(lines[4], Line { p1: pt(0, 0), p2: pt(2, 2) });
}

#[test]
fn distance_threshold_filters_pairs() {
    let points = vec![pt(0, 0), pt(3, 0), pt(100, 100)];
    let pairs = vec![(0, 1), (0, 2), (1, 2)];
    let draws = vec![true; 3];
    // Only the first pair is within the radius (squared threshold 25).
    let (adj, lines) = proximity_graph(&points, 25, &pairs, &draws);
    assert_eq!(adj[0], vec![1]);
    assert_eq!(adj[1], vec![0]);
    assert!(adj[2].is_empty());
    assert_eq!(lines.len(), 1);
}

#[test]
fn coverage_override_connects_isolated_points() {
    // All draws fail, yet isolated endpoints still get their first edge.
    let points = vec![pt(0, 0), pt(1, 0), pt(2, 0)];
    let pairs = vec![(0, 1), (1, 2), (0, 2)];
    let draws = vec![false; 3];
    let (adj, lines) = proximity_graph(&points, 1000, &pairs, &draws);
    // (0,1): both isolated -> accepted; (1,2): 2 isolated -> accepted;
    // (0,2): both covered and the draw failed -> rejected.
    assert_eq!(adj[0], vec![1]);
    assert_eq!(adj[1], vec![0, 2]);
    assert_eq!(adj[2], vec![1]);
    assert_eq!(lines.len(), 2);
}

#[test]
fn generated_room_is_planar_and_symmetric() {
    let mut rng = rng_from_seed(42);
    let node = Node::new(40, 1, 2, &mut rng);
    assert_eq!(node.points.len(), 40);
    for p in node.points.iter() {
        assert!(0 <= p.x && p.x <= 1000 && 0 <= p.y && p.y <= 1000);
    }
    // No two accepted segments properly cross.
    for a in 0..node.lines.len() {
        for b in (a + 1)..node.lines.len() {
            assert!(!node.lines[a].intersects(&node.lines[b]));
        }
    }
    // Symmetric, no self-loops, no duplicates.
    let adj = &node.g.g;
    assert_eq!(adj.len(), 40);
    for i in 0..adj.len() {
        for (k, &j) in adj[i].iter().enumerate() {
            assert_ne!(i, j);
            assert!(adj[j].contains(&i));
            assert!(!adj[i][k + 1..].contains(&j));
        }
    }
    // Hull anchors index into the point set.
    assert!(!node.inner_edges.is_empty());
    for &h in node.inner_edges.iter() {
        assert!(h < 40);
    }
}

#[test]
fn room_anchors_are_hull_of_points() {
    let mut rng = rng_from_seed(5);
    let node = Node::new(30, 1, 2, &mut rng);
    let hull = convex_hull(&node.points).unwrap();
    let anchors: Vec<usize> = hull.iter().map(|e| e.0).collect();
    assert_eq!(node.inner_edges, anchors);
}

#[test]
fn same_seed_same_dungeon() {
    let rooms = vec![(25usize, 3u64, 4u64), (12usize, 1u64, 1u64)];
    let d1 = Dungeon::new(2, 1, 2, &rooms, 7);
    let d2 = Dungeon::new(2, 1, 2, &rooms, 7);
    assert_eq!(d1.g.g, d2.g.g);
    assert_eq!(d1.nodes.len(), d2.nodes.len());
    for (a, b) in d1.nodes.iter().zip(d2.nodes.iter()) {
        assert_eq!(a.points, b.points);
        assert_eq!(a.lines, b.lines);
        assert_eq!(a.g.g, b.g.g);
        assert_eq!(a.inner_edges, b.inner_edges);
    }
}

#[test]
fn macro_graph_is_symmetric() {
    let mut rng = rng_from_seed(3);
    let g = Graph::new(12, 1, 2, &mut rng);
    assert_eq!(g.size(), 12);
    assert_eq!(g.g.len(), 12);
    for i in 0..g.g.len() {
        for (k, &j) in g.g[i].iter().enumerate() {
            assert_ne!(i, j);
            assert!(g.g[j].contains(&i));
            assert!(!g.g[i][k + 1..].contains(&j));
        }
    }
}

#[test]
fn macro_graph_density_extremes() {
    let mut rng = rng_from_seed(9);
    let full = Graph::new(6, 1, 1, &mut rng);
    for i in 0..6usize {
        assert_eq!(full.g[i].len(), 5);
    }
    let empty = Graph::new(6, 0, 1, &mut rng);
    for i in 0..6usize {
        assert!(empty.g[i].is_empty());
    }
}

#[test]
fn node_edges_tags_anchors_with_room_index() {
    let mut rng = rng_from_seed(11);
    let node = Node::new(8, 1, 1, &mut rng);
    let tagged = node.edges(5);
    assert_eq!(tagged.len(), node.inner_edges.len());
    for (k, &(anchor, room)) in tagged.iter().enumerate() {
        assert_eq!(anchor, node.inner_edges[k]);
        assert_eq!(room, 5);
    }
}

#[test]
fn dungeon_rooms_match_requested_sizes() {
    let rooms = vec![(5usize, 1u64, 2u64), (9usize, 1u64, 3u64), (3usize, 0u64, 1u64)];
    let d = Dungeon::new(3, 1, 2, &rooms, 100);
    assert_eq!(d.g.size(), 3);
    assert_eq!(d.nodes.len(), 3);
    for (k, node) in d.nodes.iter().enumerate() {
        assert_eq!(node.points.len(), rooms[k].0);
        assert_eq!(node.g.size(), rooms[k].0);
        assert!(node.edges.is_empty());
    }
}
