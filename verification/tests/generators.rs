use cartographer::algorithm::bb;
use cartographer::generator::named::{
    clique, complete_binary_tree, complete_bipartite, cycle, empty, friendship, grid, hypercube, mobius_ladder, path,
    prism, star, wheel,
};
use cartographer::generator::random::{barabasi_albert, gnm, random_regular};
use cartographer::generator::small::{bowtie, bull, cubical, diamond, gem, house, octahedron, paw, petersen, wagner};
use cartographer::generator::zx::rand_graph_like_zx;
use cartographer::graph::{EColor, Graph, VColor};
use rand::rngs::StdRng;
use rand::SeedableRng;

#[test]
fn path_counts_and_tw() {
    let g = path(5);
    assert_eq!(g.node_count(), 5);
    assert_eq!(g.alive_count(), 5);
    assert!(g.has_edge(0, 1));
    assert!(!g.has_edge(0, 2));
    assert_eq!(bb(&g).treewidth, 1);
}

#[test]
fn path_small() {
    assert_eq!(path(0).node_count(), 0);
    assert_eq!(path(1).node_count(), 1);
    assert_eq!(path(2).node_count(), 2);
}

#[test]
fn cycle_c5() {
    let g = cycle(5);
    assert_eq!(g.node_count(), 5);
    assert!(g.has_edge(4, 0));
    assert_eq!(bb(&g).treewidth, 2);
}

#[test]
fn clique_k4() {
    let g = clique(4);
    assert_eq!(g.node_count(), 4);
    for u in 0..4 {
        for v in (u + 1)..4 {
            assert!(g.has_edge(u, v));
        }
    }
    assert_eq!(bb(&g).treewidth, 3);
}

#[test]
fn star_tw_one() {
    let g = star(6);
    assert_eq!(g.node_count(), 6);
    assert_eq!(bb(&g).treewidth, 1);
}

#[test]
fn grid_3x3_tw_three() {
    let g = grid(3, 3);
    assert_eq!(g.node_count(), 9);
    assert_eq!(bb(&g).treewidth, 3);
}

#[test]
fn binary_tree_tw_one() {
    // depth 3 -> 15 vertices
    let g = complete_binary_tree(3);
    assert_eq!(g.node_count(), 15);
    assert_eq!(bb(&g).treewidth, 1);
}

#[test]
fn binary_tree_depth_zero() {
    let g = complete_binary_tree(0);
    assert_eq!(g.node_count(), 1);
    assert_eq!(g.alive_count(), 1);
}

#[test]
fn empty_graph() {
    let g = empty(4);
    assert_eq!(g.node_count(), 4);
    assert_eq!(g.alive_count(), 4);
}

#[test]
fn complete_bipartite_k33() {
    let g = complete_bipartite(3, 3);
    assert_eq!(g.node_count(), 6);
    assert_eq!(g.edge_count(), 9);
    for i in 0..3 {
        for j in 0..3 {
            assert!(g.has_edge(i, 3 + j));
        }
        assert!(!g.has_edge(i, (i + 1) % 3));
    }
    assert_eq!(bb(&g).treewidth, 3);
    // One part empty: isolated vertices, treewidth 0.
    let g2 = complete_bipartite(4, 0);
    assert_eq!(g2.node_count(), 4);
    assert_eq!(g2.edge_count(), 0);
    assert_eq!(bb(&g2).treewidth, 0);
}

#[test]
fn wheel_w6() {
    let g = wheel(6);
    assert_eq!(g.node_count(), 7);
    assert_eq!(g.edge_count(), 12); // 6 spokes + 6 rim edges
    // Hub 6 adjacent to every rim vertex.
    for i in 0..6 {
        assert!(g.has_edge(i, 6));
    }
    assert_eq!(g.degree(6), 6);
    assert_eq!(bb(&g).treewidth, 3);
    // W_3 = K_4.
    assert_eq!(wheel(3).edge_count(), 6);
}

#[test]
fn hypercube_q3() {
    let g = hypercube(3);
    assert_eq!(g.node_count(), 8);
    assert_eq!(g.edge_count(), 12); // 8 * 3 / 2
    for v in 0..8 {
        assert_eq!(g.degree(v), 3, "vertex {v}");
    }
    assert_eq!(bb(&g).treewidth, 3);
    // Q_0, Q_1, Q_2 sanity.
    assert_eq!(hypercube(0).node_count(), 1);
    assert_eq!(hypercube(1).edge_count(), 1);
    assert_eq!(hypercube(2).edge_count(), 4);
    // Hamming-distance rule spot check: 0-7 differ in 3 bits, no edge.
    assert!(!g.has_edge(0, 7));
    assert!(g.has_edge(0, 4));
}

#[test]
fn mobius_ladder_m4_is_wagner() {
    let g = mobius_ladder(4);
    assert_eq!(g.node_count(), 8);
    assert_eq!(g.edge_count(), 12);
    for v in 0..8 {
        assert_eq!(g.degree(v), 3, "vertex {v}");
    }
    assert_eq!(bb(&g).treewidth, 4); // the Wagner graph
    // Chords join opposite vertices.
    assert!(g.has_edge(0, 4));
    assert!(g.has_edge(3, 7));
}

#[test]
fn prisms() {
    // Triangular prism: 6 vertices, 9 edges, treewidth 3.
    let t = prism(3);
    assert_eq!(t.node_count(), 6);
    assert_eq!(t.edge_count(), 9);
    for v in 0..6 {
        assert_eq!(t.degree(v), 3, "vertex {v}");
    }
    assert_eq!(bb(&t).treewidth, 3);
    // Pentagonal prism: 10 vertices, 15 edges, treewidth 4.
    let p = prism(5);
    assert_eq!(p.node_count(), 10);
    assert_eq!(p.edge_count(), 15);
    assert_eq!(bb(&p).treewidth, 4);
    // Rungs connect the two cycles.
    assert!(p.has_edge(0, 5));
    assert!(p.has_edge(9, 4));
}

#[test]
fn friendship_f3() {
    let g = friendship(3);
    assert_eq!(g.node_count(), 7);
    assert_eq!(g.edge_count(), 9);
    assert_eq!(g.degree(0), 6);
    assert_eq!(bb(&g).treewidth, 2);
    // Every other vertex has degree 2.
    for v in 1..7 {
        assert_eq!(g.degree(v), 2, "vertex {v}");
    }
}



/// Degree sequence of every vertex, in index order.
fn degrees(g: &Graph) -> Vec<usize> {
    (0..g.node_count())
        .map(|i| g.degree(i))
        .collect()
}

#[test]
fn petersen_structure_and_tw() {
    let g = petersen();
    assert_eq!(g.node_count(), 10);
    assert_eq!(g.edge_count(), 15);
    assert_eq!(degrees(&g), vec![3; 10]);
    assert_eq!(bb(&g).treewidth, 4);
}

#[test]
fn wagner_structure_and_tw() {
    let g = wagner();
    assert_eq!(g.node_count(), 8);
    assert_eq!(g.edge_count(), 12);
    assert_eq!(degrees(&g), vec![3; 8]);
    assert_eq!(bb(&g).treewidth, 4); // one of the four tw-4 obstructions
}

#[test]
fn cubical_structure_and_tw() {
    let g = cubical();
    assert_eq!(g.node_count(), 8);
    assert_eq!(g.edge_count(), 12);
    assert_eq!(degrees(&g), vec![3; 8]);
    assert_eq!(bb(&g).treewidth, 3);
    // Same graph as hypercube(3).
    assert_eq!(g.edge_count(), hypercube(3).edge_count());
}

#[test]
fn octahedron_structure_and_tw() {
    let g = octahedron();
    assert_eq!(g.node_count(), 6);
    assert_eq!(g.edge_count(), 12);
    assert_eq!(degrees(&g), vec![4; 6]);
    assert_eq!(bb(&g).treewidth, 4);
}

#[test]
fn toy_graphs_are_simple_and_have_expected_tw() {
    // (name, graph, vertices, edges, treewidth)
    let cases: [(&str, Graph, usize, usize, usize); 6] = [
        ("bull", bull(), 5, 5, 2),
        ("house", house(), 5, 6, 2),
        ("diamond", diamond(), 4, 5, 2),
        ("paw", paw(), 4, 4, 2),
        ("bowtie", bowtie(), 5, 6, 2),
        ("gem", gem(), 5, 7, 3),
    ];
    for (name, g, n, m, tw) in cases {
        assert_eq!(g.node_count(), n, "{name}: node count");
        assert_eq!(g.edge_count(), m, "{name}: edge count");
        assert_eq!(bb(&g).treewidth, tw, "{name}: treewidth");
    }
}

#[test]
fn toy_graph_edges_exact() {
    // Spot-check the exact edge sets.
    assert!(bull().has_edge(0, 2));
    assert!(bull().has_edge(1, 3));
    assert!(!bull().has_edge(3, 4));
    assert!(house().has_edge(1, 4));
    assert!(house().has_edge(3, 0));
    assert!(!house().has_edge(0, 4));
    assert!(!diamond().has_edge(2, 3));
    assert!(diamond().has_edge(0, 3));
    assert!(paw().has_edge(2, 3));
    assert!(!paw().has_edge(0, 3));
    assert!(bowtie().has_edge(0, 3));
    assert!(!bowtie().has_edge(2, 4));
    assert!(gem().has_edge(0, 4));
    assert!(!gem().has_edge(3, 4));
}



fn seeded_random() -> StdRng {
    StdRng::seed_from_u64(0xC0FFEE)
}

#[test]
fn gnm_exact_edge_count() {
    let mut rng = seeded_random();
    let g = gnm(10, 7, &mut rng);
    assert_eq!(g.node_count(), 10);
    assert_eq!(edge_count(&g), 7);
}

#[test]
fn gnm_clamps_to_max_edges() {
    let mut rng = seeded_random();
    // Request far more edges than possible: should saturate at C(6,2)=15.
    let g = gnm(6, 1000, &mut rng);
    assert_eq!(edge_count(&g), 15);
}

#[test]
fn random_regular_is_k_regular() {
    let mut rng = seeded_random();
    let n = 10;
    let k = 3;
    let g = random_regular(n, k, &mut rng);
    assert_eq!(g.node_count(), n);
    for v in 0..n {
        assert_eq!(g.degree(v), k, "vertex {v} not {k}-regular");
    }
}

#[test]
fn random_regular_infeasible_returns_empty() {
    let mut rng = seeded_random();
    // n*k odd: no simple 3-regular graph on 5 vertices.
    let g = random_regular(5, 3, &mut rng);
    assert_eq!(edge_count(&g), 0);
    // k >= n: infeasible.
    let g = random_regular(4, 4, &mut rng);
    assert_eq!(edge_count(&g), 0);
}

#[test]
fn barabasi_albert_vertex_count_and_connected() {
    let mut rng = seeded_random();
    let n = 30;
    let g = barabasi_albert(n, 2, &mut rng);
    assert_eq!(g.node_count(), n);
    // BA graphs are connected (seed is a clique, every new vertex adds >=1 edge).
    // Minimum degree of an attached vertex is at least 1 except the seed clique,
    // and the seed clique is itself connected.
    assert!(is_connected(&g, n), "BA graph should be connected");
}

#[test]
fn barabasi_albert_seed_only_when_small() {
    let mut rng = seeded_random();
    // n == m+1 == 3: just the seed clique K3.
    let g = barabasi_albert(3, 2, &mut rng);
    assert_eq!(g.node_count(), 3);
    assert_eq!(edge_count(&g), 3);
}

// ---- helpers ------------------------------------------------------------

fn edge_count(g: &Graph) -> usize {
    // Each undirected edge is counted once.
    let mut total = 0usize;
    for v in 0..g.node_count() {
        total += g.degree(v);
    }
    total / 2
}

fn is_connected(g: &Graph, n: usize) -> bool {
    if n == 0 {
        return true;
    }
    let mut seen = vec![false; n];
    let mut stack = vec![0usize];
    seen[0] = true;
    let mut count = 1;
    while let Some(u) = stack.pop() {
        for nb in g.alive_neighbors(u) {
            let j = nb;
            if !seen[j] {
                seen[j] = true;
                count += 1;
                stack.push(j);
            }
        }
    }
    count == n
}



fn seeded_zx() -> StdRng {
    StdRng::seed_from_u64(0x5EED)
}

#[test]
fn all_nodes_z_and_all_edges_h() {
    let mut rng = seeded_zx();
    let g = rand_graph_like_zx(12, 20, &mut rng);
    assert_eq!(g.node_count(), 12);
    assert_eq!(g.edge_count(), 20);
    for v in g.alive_vertices() {
        assert_eq!(g.label(v), VColor::Z(0), "vertex {v:?} not a Z spider");
    }
    let mut seen = 0;
    for (_, _, ed) in g.edges().into_iter() {
        assert_eq!(g.edge_color(ed), EColor::H, "edge {ed:?} not an H edge");
        seen += 1;
    }
    assert_eq!(seen, 20);
}

#[test]
fn edge_less_zx_diagram() {
    let mut rng = seeded_zx();
    let g = rand_graph_like_zx(5, 0, &mut rng);
    assert_eq!(g.node_count(), 5);
    assert_eq!(g.edge_count(), 0);
    for v in g.alive_vertices() {
        assert_eq!(g.label(v), VColor::Z(0));
    }
}

#[test]
fn edge_count_clamped_like_gnm() {
    let mut rng = seeded_zx();
    // Requesting more edges than C(6, 2) = 15 saturates at 15.
    let g = rand_graph_like_zx(6, 100, &mut rng);
    assert_eq!(g.node_count(), 6);
    assert_eq!(g.edge_count(), 15);
    for (_, _, ed) in g.edges().into_iter() {
        assert_eq!(g.edge_color(ed), EColor::H);
    }
}


#[test]
fn random_graph_model_gives_n_vertices_for_integer_models() {
    let mut rng = rand::rngs::StdRng::seed_from_u64(7);
    assert!(cartographer::generator::random::random_graph_model(10, 0, &mut rng).is_none());
    for model in 1..4u8 {
        for n in [2usize, 5, 12] {
            let g = cartographer::generator::random::random_graph_model(n, model, &mut rng).unwrap();
            assert_eq!(g.node_count(), n);
        }
    }
}
