use cartographer::generator::zx::rand_graph_like_zx;
use cartographer::graph::{EColor, Graph, VColor};
use cartographer::io::graph3::{from_graph3, to_graph3};
use rand::rngs::StdRng;
use rand::SeedableRng;

/// Sorted `(u, v, color)` triples of the alive edges, u <= v.
fn sorted_colored_edges(g: &Graph) -> Vec<(usize, usize, EColor)> {
    let mut out: Vec<_> = g
        .edges()
        .into_iter().map(|(s, t, e)| {
            let (x, y) = (s, t);
            (x.min(y), x.max(y), g.edge_color(e))
        })
        .collect();
    out.sort_by_key(|&(x, y, c)| (x, y, c == EColor::H));
    out
}

#[test]
fn spec_example() {
    let g = from_graph3("1 2 2\n2 3 : H\n1 : Z(0)\n1 3\n3\n").unwrap();
    assert_eq!(g.node_count(), 3);
    // Two NC edges 1-2, one H edge 2-3, one NC edge 1-3 (labels 1,2,3
    // remap to dense 0,1,2).
    assert_eq!(
        sorted_colored_edges(&g),
        vec![
            (0, 1, EColor::NC),
            (0, 1, EColor::NC),
            (0, 2, EColor::NC),
            (1, 2, EColor::H),
        ]
    );
    assert_eq!(g.label(0), VColor::Z(0));
    assert_eq!(g.label(1), VColor::NC);
    assert_eq!(g.label(2), VColor::NC);
}

#[test]
fn round_trip_and_reparse() {
    let src = r"1 2 2
2 3
1
1 3
a a f
10 20 3
";
    let g = from_graph3(src).unwrap();
    assert_eq!(g.node_count(), 6);
    assert_eq!(g.edge_multiplicity(0, 1), 2); // 1-2
    assert_eq!(g.edge_multiplicity(1, 2), 1); // 2-3
    assert_eq!(g.edge_multiplicity(0, 2), 1); // 1-3
    assert_eq!(
        g.edge_multiplicity(3, 3),
        15
    ); // a-a
    assert_eq!(g.edge_multiplicity(4, 5), 3); // 10-20
    let out = to_graph3(&g);
    assert_eq!(out, from_graph3(&out).unwrap().to_graph3());
}

#[test]
fn repeated_pairs_sum_per_type() {
    // `b a` adds one more edge to the unordered pair: 3 + 1 = 4.
    let g = from_graph3("1 2 3\n2 1\n").unwrap();
    assert_eq!(g.edge_multiplicity(0, 1), 4);
}

#[test]
fn isolated_vertex_and_zero_multiplicity() {
    let g = from_graph3("f\n1 2 0\n").unwrap();
    assert_eq!(g.node_count(), 3);
    assert_eq!(g.edge_count(), 0);
    let out = to_graph3(&g);
    // Three annotated vertices, no edges.
    assert_eq!(out, "0 : NC\n1 : NC\n2 : NC\n");
}

#[test]
fn canonicalizes_labels() {
    // a, A, 0a, 00a all spell hex 10, so they are one vertex.
    let g = from_graph3("a\nA\n0a\n00a\n").unwrap();
    assert_eq!(g.node_count(), 1);

    // A == a and 0B == b: multiplicities sum per pair: 2 + 3 = 5.
    let g2 = from_graph3("A 0B 2\n00a b 3\n").unwrap();
    assert_eq!(g2.node_count(), 2);
    assert_eq!(
        g2.edge_multiplicity(0, 1),
        5
    );
}

#[test]
fn orders_vertices_numerically() {
    // Labels 2, f(15), 10(16). Numeric order is 2 < f < 10, so 10 is node 2
    // even though "10" sorts before "2" as text.
    let g = from_graph3("10 2\nf\n").unwrap();
    assert_eq!(g.node_count(), 3);
    assert_eq!(g.edge_multiplicity(0, 2), 1);
    assert_eq!(g.edge_multiplicity(1, 2), 0);
}

#[test]
fn ignores_blank_lines_and_whitespace() {
    let g = from_graph3("\n1 2\n   \n2 3\n").unwrap();
    assert_eq!(g.node_count(), 3);
    assert_eq!(g.edge_multiplicity(0, 1), 1);
    assert_eq!(g.edge_multiplicity(1, 2), 1);
}

#[test]
fn handles_tabs() {
    let g = from_graph3("1\t2\t3\n").unwrap();
    assert_eq!(g.edge_multiplicity(0, 1), 3);
}

#[test]
fn comments_and_crlf() {
    // Full-line and trailing comments, \r\n separators, and a lone \r
    // acting as ordinary whitespace between tokens.
    let g = from_graph3("# header\r\n1 2 # edge\r\n1\r3\r\n").unwrap();
    assert_eq!(g.node_count(), 3);
    assert_eq!(g.edge_multiplicity(0, 1), 1);
    assert_eq!(g.edge_multiplicity(0, 2), 1);
}

#[test]
fn self_loop_does_not_affect_degree() {
    let g = from_graph3("a a\n").unwrap();
    assert_eq!(g.node_count(), 1);
    assert!(g.has_edge(0, 0));
    assert_eq!(g.degree(0), 0);
}

#[test]
fn typed_self_loops() {
    let g = from_graph3("a a 2 : H\n").unwrap();
    assert_eq!(g.edge_multiplicity(0, 0), 2);
    assert_eq!(
        sorted_colored_edges(&g),
        vec![(0, 0, EColor::H), (0, 0, EColor::H)]
    );
}

#[test]
fn multiplicity_ceiling_boundaries() {
    // 10000 (0x2710) is the largest allowed multiplicity.
    let g = from_graph3("1 2 2710").unwrap();
    assert_eq!(g.edge_count(), 10_000);
    // Just over the ceiling, and values that overflow the 4-hex-digit
    // fast path.
    assert!(from_graph3("1 2 2711").is_err());
    assert!(from_graph3("1 2 ffff").is_err());
    assert!(from_graph3("1 2 100000").is_err());
    // Leading zeros are ignored, so "0000" is a zero multiplicity.
    let g0 = from_graph3("1 2 0000").unwrap();
    assert_eq!(g0.edge_count(), 0);
    assert_eq!(g0.node_count(), 2);
}

#[test]
fn pair_ceiling_sums_across_types() {
    // 10000 NC edges plus 1 H edge on the same pair exceeds the ceiling.
    let e = from_graph3("1 2 2710\n1 2 1 : H\n").unwrap_err();
    assert!(e.contains("line 2"), "got: {e}");
    // The same total split across two types but under the ceiling is fine.
    let ok = from_graph3("1 2 2710\n1 2 0 : H\n").unwrap();
    assert_eq!(ok.edge_count(), 10_000);
}

#[test]
fn type_parsing() {
    let g = from_graph3("1 : z(10)\n2 : X(0008)\n3 : H\n4 : nc\n5 : Z(7)\n1 2\n").unwrap();
    // Phases are decimal, reduced mod 8, case-insensitive.
    assert_eq!(g.label(0), VColor::Z(2)); // 10 mod 8
    assert_eq!(g.label(1), VColor::X(0));
    assert_eq!(g.label(2), VColor::H);
    assert_eq!(g.label(3), VColor::NC);
    assert_eq!(g.label(4), VColor::Z(7));
    // Arbitrarily many digits fold mod 8 without overflowing.
    let g2 = from_graph3("1 : Z(0000000000000000000000009)\n").unwrap();
    assert_eq!(g2.label(0), VColor::Z(1));
}

#[test]
fn last_vertex_type_wins_and_mentions_do_not_reset() {
    let g = from_graph3("1 : Z(3)\n1 : X(1)\n1\n2 1\n").unwrap();
    assert_eq!(g.label(0), VColor::X(1));
    // The bare `1` mention did not reset the type; the edge exists.
    assert_eq!(g.edge_multiplicity(0, 1), 1);
    // Changing a type never removes edges.
    let g2 = from_graph3("1 2\n1 : H\n").unwrap();
    assert_eq!(g2.label(0), VColor::H);
    assert_eq!(
        g2.edge_multiplicity(0, 1),
        1
    );
}

#[test]
fn mixed_types_coexist_on_a_pair() {
    let g = from_graph3("1 2 2\n1 2 : H\n1 2 3 : H\n").unwrap();
    assert_eq!(
        sorted_colored_edges(&g),
        vec![
            (0, 1, EColor::NC),
            (0, 1, EColor::NC),
            (0, 1, EColor::H),
            (0, 1, EColor::H),
            (0, 1, EColor::H),
            (0, 1, EColor::H),
        ]
    );
}

#[test]
fn vertex_h_differs_from_edge_h() {
    let g = from_graph3("1 : H\n1 2 : H\n").unwrap();
    assert_eq!(g.label(0), VColor::H);
    assert_eq!(sorted_colored_edges(&g), vec![(0, 1, EColor::H)]);
}

#[test]
fn zero_multiplicity_still_validates_the_type() {
    assert!(from_graph3("1 2 0 : H\n").is_ok());
    assert!(from_graph3("1 2 0 : QUX\n").is_err());
}

#[test]
fn errors() {
    assert!(from_graph3("1 2 3 4").is_err());
    assert!(from_graph3("1 0x1").is_err());
    assert!(from_graph3("1 -1").is_err());
    assert!(from_graph3("1 : QUX").is_err()); // unknown vertex type
    assert!(from_graph3("1 2 : QUX").is_err()); // unknown edge type
    assert!(from_graph3("1 2 : Z(0)").is_err()); // Z is not an edge type
    assert!(from_graph3("1 : Z (0)").is_err()); // whitespace inside type
    assert!(from_graph3("1 : Z()").is_err());
    assert!(from_graph3("1 : Z(-1)").is_err());
    assert!(from_graph3("1 2 : H x").is_err()); // two-token type suffix
    assert!(from_graph3(": Z(0)").is_err()); // no hex token
    assert!(from_graph3("1 :").is_err()); // empty type suffix
}

#[test]
fn errors_report_line_numbers() {
    let e = from_graph3("1 2\n2 3\n0x4 5\n").unwrap_err();
    assert!(e.contains("line 3"), "got: {e}");
    let e2 = from_graph3("1 2\n\n2 3 2711\n").unwrap_err();
    assert!(e2.contains("line 3"), "got: {e2}");
    let e3 = from_graph3("1 2\n3 4 : BAD\n").unwrap_err();
    assert!(e3.contains("line 2"), "got: {e3}");
}

#[test]
fn empty_input() {
    assert_eq!(from_graph3("").unwrap().node_count(), 0);
    assert_eq!(from_graph3("  \n\n  ").unwrap().node_count(), 0);
}

#[test]
fn export_from_constructed_graph() {
    let mut g = Graph::new();
    let _a = g.add_vertex_with(VColor::NC);
    let _b = g.add_vertex_with(VColor::NC);
    let _c = g.add_vertex_with(VColor::NC);
    g.add_edge_c(0, 1, EColor::NC);
    g.add_edge_c(0, 1, EColor::NC);
    g.add_edge_c(0, 0, EColor::NC); // self-loop
    // vertex 2 is isolated
    let out = to_graph3(&g);
    assert_eq!(out, "0 : NC\n1 : NC\n2 : NC\n0 0\n0 1 2\n");
    assert_eq!(from_graph3(&out).unwrap().to_graph3(), out);
}

#[test]
fn export_annotates_every_vertex_and_orders_groups() {
    // Pair (0, 1) carries both NC and H groups: NC line comes first.
    let out = from_graph3("1 2 : H\n1 2\n").unwrap().to_graph3();
    assert_eq!(out, "0 : NC\n1 : NC\n0 1\n0 1 : H\n");
}

#[test]
fn colored_round_trip() {
    let mut g = Graph::new();
    let a = g.add_vertex_with(VColor::Z(3));
    let b = g.add_vertex_with(VColor::X(7));
    let c = g.add_vertex_with(VColor::H);
    g.add_edge_c(a, b, EColor::H);
    g.add_edge_c(a, b, EColor::NC);
    g.add_edge_c(a, b, EColor::NC);
    g.add_edge_c(c, c, EColor::H); // H self-loop
    g.add_edge_c(b, c, EColor::NC);

    let text = to_graph3(&g);
    assert_eq!(
        text,
        "0 : Z(3)\n1 : X(7)\n2 : H\n0 1 2\n0 1 : H\n1 2\n2 2 : H\n"
    );
    let back = from_graph3(&text).unwrap();
    assert_eq!(back.node_count(), 3);
    assert_eq!(back.label(0), VColor::Z(3));
    assert_eq!(back.label(1), VColor::X(7));
    assert_eq!(back.label(2), VColor::H);
    assert_eq!(sorted_colored_edges(&back), sorted_colored_edges(&g));
    // Canonical: exporting the reparsed graph is a fixpoint.
    assert_eq!(to_graph3(&back), text);
}

#[test]
fn export_is_alive_induced_subgraph() {
    // Eliminate the center of a star: only leaves stay alive, and
    // elimination fills them into a clique.
    let mut g = Graph::from_edges(vec![(0, 1), (0, 2), (0, 3)]);
    g.elim(0);
    assert_eq!(g.alive_count(), 3);
    let out = to_graph3(&g);
    let parsed = from_graph3(&out).unwrap();
    assert_eq!(parsed.node_count(), 3);
    assert_eq!(
        parsed.edge_multiplicity(0, 1),
        1
    );
    assert_eq!(
        parsed.edge_multiplicity(1, 2),
        1
    );
    assert_eq!(
        parsed.edge_multiplicity(0, 2),
        1
    );
}

#[test]
fn colon_whitespace_is_free() {
    // `1:Z(0)`, `1 : Z(0)`, and `1: Z(0)` are all valid, but the type
    // itself must be one whitespace-free token.
    let g = from_graph3("1:Z(0)\n2 :X(1)\n3: H\n1 2:H\n").unwrap();
    assert_eq!(g.node_count(), 3);
    assert_eq!(g.label(0), VColor::Z(0));
    assert_eq!(g.label(1), VColor::X(1));
    assert_eq!(g.label(2), VColor::H);
    assert_eq!(sorted_colored_edges(&g), vec![(0, 1, EColor::H)]);
    // Tabs around the colon wash out with the trim.
    let g2 = from_graph3("4 :\tZ(2)\t\n").unwrap();
    assert_eq!(g2.label(0), VColor::Z(2));
}

#[test]
fn comments_strip_before_tokenizing() {
    // A comment can mask what would otherwise be too many tokens or a
    // type-looking suffix; only what precedes `#` is parsed.
    let g = from_graph3("1 2 3 # 4 5 : Z(9)\n# 9 : Z(9)\n1 # 2 3 4\n").unwrap();
    assert_eq!(g.node_count(), 2); // no vertex 9 from the comment
    assert_eq!(g.edge_multiplicity(0, 1), 3);
    assert_eq!(g.label(0), VColor::NC);
}

#[test]
fn second_colon_becomes_part_of_type() {
    // The line splits at the FIRST ':'; the rest (now containing
    // whitespace) is an invalid type token.
    assert!(from_graph3("1 : Z(0) : junk\n").is_err());
    assert!(from_graph3("1 2 : H : H\n").is_err());
}

#[test]
fn zero_labels_collapse() {
    // 0, 00, 000 all denote vertex 0.
    let g = from_graph3("0\n00\n000\n0 0\n").unwrap();
    assert_eq!(g.node_count(), 1);
    assert_eq!(g.edge_multiplicity(0, 0), 1);
}

#[test]
fn vertex_set_is_exactly_mentioned_labels() {
    // Labels 1 and 3 are mentioned; vertex 2 is not implied.
    let g = from_graph3("1 3\n").unwrap();
    assert_eq!(g.node_count(), 2);
    assert_eq!(g.edge_multiplicity(0, 1), 1);
}

#[test]
fn uppercase_labels_and_lowercase_types() {
    // Hex labels and type tokens are case-insensitive in both roles.
    let g = from_graph3("A B F\n1 2 : h\n2 : nc\n").unwrap();
    assert_eq!(g.node_count(), 4);
    // Numeric order 1 < 2 < 10(A) < 11(B), so dense ids are
    // 1->0, 2->1, A->2, B->3; A-B carries 0xF = 15 parallel NC edges
    // and 1-2 one lowercase-`h` Hadamard edge.
    let mut expected = vec![(2, 3, EColor::NC); 15];
    expected.insert(0, (0, 1, EColor::H));
    assert_eq!(sorted_colored_edges(&g), expected);
    assert_eq!(
        g.edge_multiplicity(2, 3),
        15
    );
    // Vertex "2" (dense 1) was typed `nc`.
    assert_eq!(g.label(1), VColor::NC);
}

#[test]
fn explicit_multiplicity_one_renders_bare() {
    let out = from_graph3("1 2 1\n").unwrap().to_graph3();
    assert_eq!(out, "0 : NC\n1 : NC\n0 1\n");
}

#[test]
fn hex_multiplicity_and_large_labels_render() {
    // 16 parallel edges render multiplicities in hex (0x10), and labels
    // of any hex length are first-class vertices.
    let g = from_graph3("1 2 10\n3 ffffffffffff\n").unwrap();
    assert_eq!(g.node_count(), 4);
    // Dense ids: 1->0, 2->1, 3->2, ffffffffffff->3.
    assert_eq!(
        g.edge_multiplicity(0, 1),
        16
    );
    assert_eq!(g.edge_multiplicity(2, 3), 1);
    let out = to_graph3(&g);
    assert_eq!(out, "0 : NC\n1 : NC\n2 : NC\n3 : NC\n0 1 10\n2 3\n");
}

#[test]
fn pair_ceiling_is_per_pair() {
    // 10000 edges on each of two distinct pairs: fine, the ceiling is
    // per pair, not global.
    let g = from_graph3("1 2 2710\n3 4 2710\n").unwrap();
    assert_eq!(g.edge_count(), 20_000);
}

#[test]
fn multi_line_sums_may_reach_ceiling_exactly() {
    // 0x1388 = 5000 twice: exactly 10000 on the pair, still allowed.
    let g = from_graph3("1 2 1388\n1 2 1388\n").unwrap();
    assert_eq!(
        g.edge_multiplicity(0, 1),
        10_000
    );
    // One more single edge tips it over.
    assert!(from_graph3("1 2 1388\n1 2 1388\n1 2\n").is_err());
}

#[test]
fn out_of_range_phases_reduce_on_export() {
    // Phases constructed out of range (only possible programmatically)
    // are reduced mod 8 when rendered.
    let mut g = Graph::new();
    g.add_vertex_with(VColor::Z(9));
    g.add_vertex_with(VColor::X(8));
    let out = to_graph3(&g);
    assert_eq!(out, "0 : Z(1)\n1 : X(0)\n");
    let back = from_graph3(&out).unwrap();
    assert_eq!(back.label(0), VColor::Z(1));
    assert_eq!(back.label(1), VColor::X(0));
}

#[test]
fn empty_and_dead_graphs_render_nothing() {
    assert_eq!(to_graph3(&Graph::new()), "");
    // An empty file parses back to an empty graph.
    assert_eq!(from_graph3("").unwrap().node_count(), 0);
    // All vertices dead: the alive induced subgraph is empty.
    let mut g = Graph::new();
    let a = g.add_vertex_with(VColor::Z(1));
    let b = g.add_vertex_with(VColor::Z(2));
    g.add_edge_c(a, b, EColor::H);
    g.remove_vertex(a);
    g.remove_vertex(b);
    assert_eq!(to_graph3(&g), "");
}

#[test]
fn export_skips_dead_vertices_and_relabels() {
    // Killing the middle vertex leaves a and c alive; they are remapped
    // to dense labels 0 and 1.
    let mut g = Graph::new();
    let a = g.add_vertex_with(VColor::Z(2));
    let b = g.add_vertex_with(VColor::X(5));
    let c = g.add_vertex_with(VColor::H);
    g.add_edge_c(a, b, EColor::H);
    g.add_edge_c(a, c, EColor::H);
    g.remove_vertex(b);
    let out = to_graph3(&g);
    assert_eq!(out, "0 : Z(2)\n1 : H\n0 1 : H\n");
}

#[test]
fn random_colored_graphs_round_trip() {
    let mut rng = StdRng::seed_from_u64(0xC0FFEE);
    for (n, e) in [(3usize, 0usize), (5, 4), (8, 12), (12, 20), (16, 40)] {
        let mut g = rand_graph_like_zx(n, e, &mut rng);
        // Sprinkle mixed vertex types with in-range phases...
        let verts: Vec<_> = g.alive_vertices();
        for (i, v) in verts.into_iter().enumerate() {
            g.set_color(
                v,
                match i % 4 {
                    0 => VColor::Z((i * 3 % 8) as u8),
                    1 => VColor::X(7),
                    2 => VColor::H,
                    _ => VColor::NC,
                },
            );
        }
        // ...and flip every third edge to normal, so both edge groups
        // occur on shared pairs.
        let eids: Vec<_> = g.edges().into_iter().map(|(_, _, ed)| ed).collect();
        for (i, ed) in eids.iter().enumerate() {
            if i % 3 == 0 {
                g.set_edge_color(*ed, EColor::NC);
            }
        }

        let text = to_graph3(&g);
        let back = from_graph3(&text).unwrap();
        assert_eq!(to_graph3(&back), text, "fixpoint failed for n={n} e={e}");
        assert_eq!(back.node_count(), n);
        for i in 0..n {
            assert_eq!(
                back.label(i),
                g.label(i),
                "label {i} differs for n={n} e={e}"
            );
        }
        assert_eq!(
            sorted_colored_edges(&back),
            sorted_colored_edges(&g),
            "edges differ for n={n} e={e}"
        );
    }
}


#[test]
fn checked_parse_accepts_small_graphs() {
    let g = cartographer::io::graph3::from_graph3_checked("1 2 2\n2 3 : H\n").unwrap();
    assert_eq!(g.edge_count(), 3);
}

#[test]
fn checked_parse_reports_parse_errors() {
    let r = cartographer::io::graph3::from_graph3_checked("0 1 2 3 4\n");
    assert!(r.is_err());
    assert_ne!(r.err(), Some("graph too large".to_string()));
}
